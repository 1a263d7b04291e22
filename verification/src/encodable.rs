//! The capability a type implements to be serializable, and the
//! implementations for the builtin value shapes.

use crate::encoder::{Error, SingleItemEncoder};
use crate::value::{
    depth_of, encoding, lemma_list_depth_ge, lemma_list_depth_le, list_enc, BValue, TOK_LIST,
};
use std::collections::VecDeque;
use vstd::prelude::*;
use vstd::utf8::encode_utf8;

verus! {

/// An object that can be encoded into a single bencode value.
///
/// `bval` is the abstract value the object serializes as, and `encode` is
/// bound to it: on success it appends exactly `encoding(self.bval())` to the
/// context, and it succeeds exactly when the value's nesting fits under the
/// context's remaining depth allowance.
pub trait Encodable: Sized {
    /// The abstract value this object serializes as.
    spec fn bval(&self) -> BValue;

    /// The declared type-level bound on how deep any value of the type can
    /// nest.  Leaves take no level, so an `i1e` has depth 0 and `li1ee` has
    /// depth 1.
    spec fn max_depth_spec() -> nat;

    /// The declared bound is sound: no value of the type nests deeper.
    proof fn lemma_depth_bounded(v: &Self)
        ensures
            depth_of(v.bval()) <= Self::max_depth_spec(),
    ;

    /// The declared bound as a runtime ceiling, saturated at `usize::MAX`
    /// where the type-level bound does not fit the machine.
    fn max_depth() -> (d: usize)
        ensures
            d == usize::MAX || d as nat == Self::max_depth_spec(),
    ;

    /// Writes this object into the given context as exactly one value.
    fn encode(&self, encoder: &mut SingleItemEncoder) -> (r: Result<(), Error>)
        requires
            old(encoder).nesting() <= old(encoder).ceiling(),
        ensures
            final(encoder).ceiling() == old(encoder).ceiling(),
            r is Ok <==> old(encoder).nesting() + depth_of(self.bval())
                <= old(encoder).ceiling(),
            r is Ok ==> final(encoder).nesting() == old(encoder).nesting()
                && final(encoder).bytes() == old(encoder).bytes() + encoding(self.bval()),
            r matches Err(e) ==> e is DepthLimitExceeded,
    ;

    /// Encodes this object on a fresh driver whose ceiling is the type's
    /// declared bound, and returns the finished byte string.
    fn to_bytes(&self) -> (r: Result<Vec<u8>, Error>)
        ensures
            r matches Ok(b) ==> b@ == encoding(self.bval()),
            Self::max_depth_spec() <= usize::MAX as nat ==> r is Ok,
    ;
}

impl<'a, E: 'a + Encodable> Encodable for &'a E {
    open spec fn bval(&self) -> BValue {
        (**self).bval()
    }

    open spec fn max_depth_spec() -> nat {
        E::max_depth_spec()
    }

    proof fn lemma_depth_bounded(v: &Self) {
        E::lemma_depth_bounded(&**v);
    }

    fn max_depth() -> (d: usize) {
        E::max_depth()
    }

    fn encode(&self, encoder: &mut SingleItemEncoder) -> (r: Result<(), Error>) {
        (**self).encode(encoder)
    }

    fn to_bytes(&self) -> (r: Result<Vec<u8>, Error>) {
        proof {
            Self::lemma_depth_bounded(self);
        }
        let limit = Self::max_depth();
        let mut item = SingleItemEncoder::new(limit);
        let res = self.encode(&mut item);
        match res {
            Ok(()) => {
                proof {
                    assert(item.bytes() =~= encoding(self.bval()));
                }
                Ok(item.into_bytes())
            },
            Err(e) => Err(e),
        }
    }
}

impl<E: Encodable> Encodable for Box<E> {
    open spec fn bval(&self) -> BValue {
        (**self).bval()
    }

    open spec fn max_depth_spec() -> nat {
        E::max_depth_spec()
    }

    proof fn lemma_depth_bounded(v: &Self) {
        E::lemma_depth_bounded(&**v);
    }

    fn max_depth() -> (d: usize) {
        E::max_depth()
    }

    fn encode(&self, encoder: &mut SingleItemEncoder) -> (r: Result<(), Error>) {
        (**self).encode(encoder)
    }

    fn to_bytes(&self) -> (r: Result<Vec<u8>, Error>) {
        proof {
            Self::lemma_depth_bounded(self);
        }
        let limit = Self::max_depth();
        let mut item = SingleItemEncoder::new(limit);
        let res = self.encode(&mut item);
        match res {
            Ok(()) => {
                proof {
                    assert(item.bytes() =~= encoding(self.bval()));
                }
                Ok(item.into_bytes())
            },
            Err(e) => Err(e),
        }
    }
}

impl<E: Encodable> Encodable for std::rc::Rc<E> {
    open spec fn bval(&self) -> BValue {
        (**self).bval()
    }

    open spec fn max_depth_spec() -> nat {
        E::max_depth_spec()
    }

    proof fn lemma_depth_bounded(v: &Self) {
        E::lemma_depth_bounded(&**v);
    }

    fn max_depth() -> (d: usize) {
        E::max_depth()
    }

    fn encode(&self, encoder: &mut SingleItemEncoder) -> (r: Result<(), Error>) {
        (**self).encode(encoder)
    }

    fn to_bytes(&self) -> (r: Result<Vec<u8>, Error>) {
        proof {
            Self::lemma_depth_bounded(self);
        }
        let limit = Self::max_depth();
        let mut item = SingleItemEncoder::new(limit);
        let res = self.encode(&mut item);
        match res {
            Ok(()) => {
                proof {
                    assert(item.bytes() =~= encoding(self.bval()));
                }
                Ok(item.into_bytes())
            },
            Err(e) => Err(e),
        }
    }
}

impl<E: Encodable> Encodable for std::sync::Arc<E> {
    open spec fn bval(&self) -> BValue {
        (**self).bval()
    }

    open spec fn max_depth_spec() -> nat {
        E::max_depth_spec()
    }

    proof fn lemma_depth_bounded(v: &Self) {
        E::lemma_depth_bounded(&**v);
    }

    fn max_depth() -> (d: usize) {
        E::max_depth()
    }

    fn encode(&self, encoder: &mut SingleItemEncoder) -> (r: Result<(), Error>) {
        (**self).encode(encoder)
    }

    fn to_bytes(&self) -> (r: Result<Vec<u8>, Error>) {
        proof {
            Self::lemma_depth_bounded(self);
        }
        let limit = Self::max_depth();
        let mut item = SingleItemEncoder::new(limit);
        let res = self.encode(&mut item);
        match res {
            Ok(()) => {
                proof {
                    assert(item.bytes() =~= encoding(self.bval()));
                }
                Ok(item.into_bytes())
            },
            Err(e) => Err(e),
        }
    }
}

/// Wrapper to allow a byte sequence to encode as a bencode string element
/// instead of as a list of integers.
#[derive(Clone, Copy, Debug, Default, Hash, Eq, PartialEq, PartialOrd, Ord)]
pub struct AsString<I>(pub I);

impl<'a> From<&'a [u8]> for AsString<Vec<u8>> {
    fn from(content: &'a [u8]) -> (r: Self)
        ensures
            r.0@ == content@,
    {
        AsString(vstd::slice::slice_to_vec(content))
    }
}

impl<'a> vstd::std_specs::convert::FromSpecImpl<&'a [u8]> for AsString<Vec<u8>> {
    open spec fn obeys_from_spec() -> bool {
        false
    }

    open spec fn from_spec(content: &'a [u8]) -> Self {
        arbitrary()
    }
}

impl Encodable for AsString<Vec<u8>> {
    open spec fn bval(&self) -> BValue {
        BValue::Bytes(self.0@)
    }

    open spec fn max_depth_spec() -> nat {
        1
    }

    proof fn lemma_depth_bounded(v: &Self) {
    }

    fn max_depth() -> (d: usize) {
        1
    }

    fn encode(&self, encoder: &mut SingleItemEncoder) -> (r: Result<(), Error>) {
        encoder.emit_bytes(self.0.as_slice())
    }

    fn to_bytes(&self) -> (r: Result<Vec<u8>, Error>) {
        proof {
            Self::lemma_depth_bounded(self);
        }
        let limit = Self::max_depth();
        let mut item = SingleItemEncoder::new(limit);
        let res = self.encode(&mut item);
        match res {
            Ok(()) => {
                proof {
                    assert(item.bytes() =~= encoding(self.bval()));
                }
                Ok(item.into_bytes())
            },
            Err(e) => Err(e),
        }
    }
}

impl<'a> Encodable for AsString<&'a Vec<u8>> {
    open spec fn bval(&self) -> BValue {
        BValue::Bytes(self.0@)
    }

    open spec fn max_depth_spec() -> nat {
        1
    }

    proof fn lemma_depth_bounded(v: &Self) {
    }

    fn max_depth() -> (d: usize) {
        1
    }

    fn encode(&self, encoder: &mut SingleItemEncoder) -> (r: Result<(), Error>) {
        encoder.emit_bytes(self.0.as_slice())
    }

    fn to_bytes(&self) -> (r: Result<Vec<u8>, Error>) {
        proof {
            Self::lemma_depth_bounded(self);
        }
        let limit = Self::max_depth();
        let mut item = SingleItemEncoder::new(limit);
        let res = self.encode(&mut item);
        match res {
            Ok(()) => {
                proof {
                    assert(item.bytes() =~= encoding(self.bval()));
                }
                Ok(item.into_bytes())
            },
            Err(e) => Err(e),
        }
    }
}

impl<'a> Encodable for AsString<&'a [u8]> {
    open spec fn bval(&self) -> BValue {
        BValue::Bytes(self.0@)
    }

    open spec fn max_depth_spec() -> nat {
        1
    }

    proof fn lemma_depth_bounded(v: &Self) {
    }

    fn max_depth() -> (d: usize) {
        1
    }

    fn encode(&self, encoder: &mut SingleItemEncoder) -> (r: Result<(), Error>) {
        encoder.emit_bytes(self.0)
    }

    fn to_bytes(&self) -> (r: Result<Vec<u8>, Error>) {
        proof {
            Self::lemma_depth_bounded(self);
        }
        let limit = Self::max_depth();
        let mut item = SingleItemEncoder::new(limit);
        let res = self.encode(&mut item);
        match res {
            Ok(()) => {
                proof {
                    assert(item.bytes() =~= encoding(self.bval()));
                }
                Ok(item.into_bytes())
            },
            Err(e) => Err(e),
        }
    }
}

impl<T: Encodable> Encodable for Vec<T> {
    open spec fn bval(&self) -> BValue {
        BValue::List(self@.map_values(|t: T| t.bval()))
    }

    open spec fn max_depth_spec() -> nat {
        T::max_depth_spec() + 1
    }

    proof fn lemma_depth_bounded(v: &Self) {
        let es = v@.map_values(|t: T| t.bval());
        assert forall|j: int| 0 <= j < es.len() implies depth_of(#[trigger] es[j])
            <= T::max_depth_spec() by {
            T::lemma_depth_bounded(&v@[j]);
        }
        lemma_list_depth_le(es, 0, T::max_depth_spec());
    }

    fn max_depth() -> (d: usize) {
        let d = T::max_depth();
        if d == usize::MAX {
            usize::MAX
        } else {
            d + 1
        }
    }

    fn encode(&self, encoder: &mut SingleItemEncoder) -> (r: Result<(), Error>) {
        let ghost es = self@.map_values(|t: T| t.bval());
        let res = encoder.open_list();
        match res {
            Ok(()) => {},
            Err(e) => {
                return Err(e);
            },
        }
        let mut i: usize = 0;
        while i < self.len()
            invariant
                i <= self.len(),
                es == self@.map_values(|t: T| t.bval()),
                encoder.ceiling() == old(encoder).ceiling(),
                encoder.nesting() == old(encoder).nesting() + 1,
                encoder.nesting() <= encoder.ceiling(),
                encoder.bytes() + list_enc(es, i as int) == old(encoder).bytes() + seq![TOK_LIST]
                    + list_enc(es, 0),
                forall|j: int| 0 <= j < i ==> depth_of(#[trigger] es[j]) + old(encoder).nesting()
                    + 1 <= old(encoder).ceiling(),
            decreases self.len() - i,
        {
            let elem = &self[i];
            let res2 = encoder.emit(elem);
            match res2 {
                Ok(()) => {
                    proof {
                        assert(es[i as int] == self@[i as int].bval());
                        assert(encoder.bytes() + list_enc(es, i + 1) =~= old(encoder).bytes()
                            + seq![TOK_LIST] + list_enc(es, 0));
                    }
                },
                Err(e) => {
                    proof {
                        lemma_list_depth_ge(es, 0, i as int);
                    }
                    return Err(e);
                },
            }
            i = i + 1;
        }
        proof {
            assert(list_enc(es, self@.len() as int) =~= Seq::<u8>::empty());
            assert(encoder.bytes() =~= old(encoder).bytes() + seq![TOK_LIST] + list_enc(es, 0));
            if old(encoder).nesting() + 1 <= old(encoder).ceiling() {
                lemma_list_depth_le(
                    es,
                    0,
                    (old(encoder).ceiling() - old(encoder).nesting() - 1) as nat,
                );
            }
        }
        encoder.close_list();
        proof {
            assert(encoder.bytes() =~= old(encoder).bytes() + encoding(self.bval()));
        }
        Ok(())
    }

    fn to_bytes(&self) -> (r: Result<Vec<u8>, Error>) {
        proof {
            Self::lemma_depth_bounded(self);
        }
        let limit = Self::max_depth();
        let mut item = SingleItemEncoder::new(limit);
        let res = self.encode(&mut item);
        match res {
            Ok(()) => {
                proof {
                    assert(item.bytes() =~= encoding(self.bval()));
                }
                Ok(item.into_bytes())
            },
            Err(e) => Err(e),
        }
    }
}

impl<T: Encodable> Encodable for VecDeque<T> {
    open spec fn bval(&self) -> BValue {
        BValue::List(self@.map_values(|t: T| t.bval()))
    }

    open spec fn max_depth_spec() -> nat {
        T::max_depth_spec() + 1
    }

    proof fn lemma_depth_bounded(v: &Self) {
        let es = v@.map_values(|t: T| t.bval());
        assert forall|j: int| 0 <= j < es.len() implies depth_of(#[trigger] es[j])
            <= T::max_depth_spec() by {
            T::lemma_depth_bounded(&v@[j]);
        }
        lemma_list_depth_le(es, 0, T::max_depth_spec());
    }

    fn max_depth() -> (d: usize) {
        let d = T::max_depth();
        if d == usize::MAX {
            usize::MAX
        } else {
            d + 1
        }
    }

    fn encode(&self, encoder: &mut SingleItemEncoder) -> (r: Result<(), Error>) {
        broadcast use vstd::std_specs::vecdeque::axiom_spec_len;

        let ghost es = self@.map_values(|t: T| t.bval());
        let res = encoder.open_list();
        match res {
            Ok(()) => {},
            Err(e) => {
                return Err(e);
            },
        }
        let mut i: usize = 0;
        while i < self.len()
            invariant
                i <= self@.len(),
                es == self@.map_values(|t: T| t.bval()),
                encoder.ceiling() == old(encoder).ceiling(),
                encoder.nesting() == old(encoder).nesting() + 1,
                encoder.nesting() <= encoder.ceiling(),
                encoder.bytes() + list_enc(es, i as int) == old(encoder).bytes() + seq![TOK_LIST]
                    + list_enc(es, 0),
                forall|j: int| 0 <= j < i ==> depth_of(#[trigger] es[j]) + old(encoder).nesting()
                    + 1 <= old(encoder).ceiling(),
            decreases self@.len() - i,
        {
            let elem = &self[i];
            let res2 = encoder.emit(elem);
            match res2 {
                Ok(()) => {
                    proof {
                        assert(es[i as int] == self@[i as int].bval());
                        assert(encoder.bytes() + list_enc(es, i + 1) =~= old(encoder).bytes()
                            + seq![TOK_LIST] + list_enc(es, 0));
                    }
                },
                Err(e) => {
                    proof {
                        lemma_list_depth_ge(es, 0, i as int);
                    }
                    return Err(e);
                },
            }
            i = i + 1;
        }
        proof {
            assert(list_enc(es, self@.len() as int) =~= Seq::<u8>::empty());
            assert(encoder.bytes() =~= old(encoder).bytes() + seq![TOK_LIST] + list_enc(es, 0));
            if old(encoder).nesting() + 1 <= old(encoder).ceiling() {
                lemma_list_depth_le(
                    es,
                    0,
                    (old(encoder).ceiling() - old(encoder).nesting() - 1) as nat,
                );
            }
        }
        encoder.close_list();
        proof {
            assert(encoder.bytes() =~= old(encoder).bytes() + encoding(self.bval()));
        }
        Ok(())
    }

    fn to_bytes(&self) -> (r: Result<Vec<u8>, Error>) {
        proof {
            Self::lemma_depth_bounded(self);
        }
        let limit = Self::max_depth();
        let mut item = SingleItemEncoder::new(limit);
        let res = self.encode(&mut item);
        match res {
            Ok(()) => {
                proof {
                    assert(item.bytes() =~= encoding(self.bval()));
                }
                Ok(item.into_bytes())
            },
            Err(e) => Err(e),
        }
    }
}

impl<'a, T: Encodable> Encodable for &'a [T] {
    open spec fn bval(&self) -> BValue {
        BValue::List(self@.map_values(|t: T| t.bval()))
    }

    open spec fn max_depth_spec() -> nat {
        T::max_depth_spec() + 1
    }

    proof fn lemma_depth_bounded(v: &Self) {
        let es = v@.map_values(|t: T| t.bval());
        assert forall|j: int| 0 <= j < es.len() implies depth_of(#[trigger] es[j])
            <= T::max_depth_spec() by {
            T::lemma_depth_bounded(&v@[j]);
        }
        lemma_list_depth_le(es, 0, T::max_depth_spec());
    }

    fn max_depth() -> (d: usize) {
        let d = T::max_depth();
        if d == usize::MAX {
            usize::MAX
        } else {
            d + 1
        }
    }

    fn encode(&self, encoder: &mut SingleItemEncoder) -> (r: Result<(), Error>) {
        let ghost es = self@.map_values(|t: T| t.bval());
        let res = encoder.open_list();
        match res {
            Ok(()) => {},
            Err(e) => {
                return Err(e);
            },
        }
        let mut i: usize = 0;
        while i < self.len()
            invariant
                i <= self@.len(),
                es == self@.map_values(|t: T| t.bval()),
                encoder.ceiling() == old(encoder).ceiling(),
                encoder.nesting() == old(encoder).nesting() + 1,
                encoder.nesting() <= encoder.ceiling(),
                encoder.bytes() + list_enc(es, i as int) == old(encoder).bytes() + seq![TOK_LIST]
                    + list_enc(es, 0),
                forall|j: int| 0 <= j < i ==> depth_of(#[trigger] es[j]) + old(encoder).nesting()
                    + 1 <= old(encoder).ceiling(),
            decreases self@.len() - i,
        {
            let elem = vstd::slice::slice_index_get(*self, i);
            let res2 = encoder.emit(elem);
            match res2 {
                Ok(()) => {
                    proof {
                        assert(es[i as int] == self@[i as int].bval());
                        assert(encoder.bytes() + list_enc(es, i + 1) =~= old(encoder).bytes()
                            + seq![TOK_LIST] + list_enc(es, 0));
                    }
                },
                Err(e) => {
                    proof {
                        assert(elem.bval() == es[i as int]);
                        lemma_list_depth_ge(es, 0, i as int);
                    }
                    return Err(e);
                },
            }
            i = i + 1;
        }
        proof {
            assert(list_enc(es, self@.len() as int) =~= Seq::<u8>::empty());
            assert(encoder.bytes() =~= old(encoder).bytes() + seq![TOK_LIST] + list_enc(es, 0));
            if old(encoder).nesting() + 1 <= old(encoder).ceiling() {
                lemma_list_depth_le(
                    es,
                    0,
                    (old(encoder).ceiling() - old(encoder).nesting() - 1) as nat,
                );
            }
        }
        encoder.close_list();
        proof {
            assert(encoder.bytes() =~= old(encoder).bytes() + encoding(self.bval()));
        }
        Ok(())
    }

    fn to_bytes(&self) -> (r: Result<Vec<u8>, Error>) {
        proof {
            Self::lemma_depth_bounded(self);
        }
        let limit = Self::max_depth();
        let mut item = SingleItemEncoder::new(limit);
        let res = self.encode(&mut item);
        match res {
            Ok(()) => {
                proof {
                    assert(item.bytes() =~= encoding(self.bval()));
                }
                Ok(item.into_bytes())
            },
            Err(e) => Err(e),
        }
    }
}

impl Encodable for String {
    open spec fn bval(&self) -> BValue {
        BValue::Bytes(encode_utf8(self@))
    }

    open spec fn max_depth_spec() -> nat {
        0
    }

    proof fn lemma_depth_bounded(v: &Self) {
    }

    fn max_depth() -> (d: usize) {
        0
    }

    fn encode(&self, encoder: &mut SingleItemEncoder) -> (r: Result<(), Error>) {
        encoder.emit_str(self.as_str())
    }

    fn to_bytes(&self) -> (r: Result<Vec<u8>, Error>) {
        proof {
            Self::lemma_depth_bounded(self);
        }
        let limit = Self::max_depth();
        let mut item = SingleItemEncoder::new(limit);
        let res = self.encode(&mut item);
        match res {
            Ok(()) => {
                proof {
                    assert(item.bytes() =~= encoding(self.bval()));
                }
                Ok(item.into_bytes())
            },
            Err(e) => Err(e),
        }
    }
}

impl<'a> Encodable for &'a str {
    open spec fn bval(&self) -> BValue {
        BValue::Bytes(encode_utf8(self@))
    }

    open spec fn max_depth_spec() -> nat {
        0
    }

    proof fn lemma_depth_bounded(v: &Self) {
    }

    fn max_depth() -> (d: usize) {
        0
    }

    fn encode(&self, encoder: &mut SingleItemEncoder) -> (r: Result<(), Error>) {
        encoder.emit_str(*self)
    }

    fn to_bytes(&self) -> (r: Result<Vec<u8>, Error>) {
        proof {
            Self::lemma_depth_bounded(self);
        }
        let limit = Self::max_depth();
        let mut item = SingleItemEncoder::new(limit);
        let res = self.encode(&mut item);
        match res {
            Ok(()) => {
                proof {
                    assert(item.bytes() =~= encoding(self.bval()));
                }
                Ok(item.into_bytes())
            },
            Err(e) => Err(e),
        }
    }
}

impl Encodable for u8 {
    open spec fn bval(&self) -> BValue {
        BValue::Int(*self as int)
    }

    open spec fn max_depth_spec() -> nat {
        1
    }

    proof fn lemma_depth_bounded(v: &Self) {
    }

    fn max_depth() -> (d: usize) {
        1
    }

    fn encode(&self, encoder: &mut SingleItemEncoder) -> (r: Result<(), Error>) {
        encoder.emit_int(*self as i128)
    }

    fn to_bytes(&self) -> (r: Result<Vec<u8>, Error>) {
        proof {
            Self::lemma_depth_bounded(self);
        }
        let limit = Self::max_depth();
        let mut item = SingleItemEncoder::new(limit);
        let res = self.encode(&mut item);
        match res {
            Ok(()) => {
                proof {
                    assert(item.bytes() =~= encoding(self.bval()));
                }
                Ok(item.into_bytes())
            },
            Err(e) => Err(e),
        }
    }
}

impl Encodable for u16 {
    open spec fn bval(&self) -> BValue {
        BValue::Int(*self as int)
    }

    open spec fn max_depth_spec() -> nat {
        1
    }

    proof fn lemma_depth_bounded(v: &Self) {
    }

    fn max_depth() -> (d: usize) {
        1
    }

    fn encode(&self, encoder: &mut SingleItemEncoder) -> (r: Result<(), Error>) {
        encoder.emit_int(*self as i128)
    }

    fn to_bytes(&self) -> (r: Result<Vec<u8>, Error>) {
        proof {
            Self::lemma_depth_bounded(self);
        }
        let limit = Self::max_depth();
        let mut item = SingleItemEncoder::new(limit);
        let res = self.encode(&mut item);
        match res {
            Ok(()) => {
                proof {
                    assert(item.bytes() =~= encoding(self.bval()));
                }
                Ok(item.into_bytes())
            },
            Err(e) => Err(e),
        }
    }
}

impl Encodable for u32 {
    open spec fn bval(&self) -> BValue {
        BValue::Int(*self as int)
    }

    open spec fn max_depth_spec() -> nat {
        1
    }

    proof fn lemma_depth_bounded(v: &Self) {
    }

    fn max_depth() -> (d: usize) {
        1
    }

    fn encode(&self, encoder: &mut SingleItemEncoder) -> (r: Result<(), Error>) {
        encoder.emit_int(*self as i128)
    }

    fn to_bytes(&self) -> (r: Result<Vec<u8>, Error>) {
        proof {
            Self::lemma_depth_bounded(self);
        }
        let limit = Self::max_depth();
        let mut item = SingleItemEncoder::new(limit);
        let res = self.encode(&mut item);
        match res {
            Ok(()) => {
                proof {
                    assert(item.bytes() =~= encoding(self.bval()));
                }
                Ok(item.into_bytes())
            },
            Err(e) => Err(e),
        }
    }
}

impl Encodable for u64 {
    open spec fn bval(&self) -> BValue {
        BValue::Int(*self as int)
    }

    open spec fn max_depth_spec() -> nat {
        1
    }

    proof fn lemma_depth_bounded(v: &Self) {
    }

    fn max_depth() -> (d: usize) {
        1
    }

    fn encode(&self, encoder: &mut SingleItemEncoder) -> (r: Result<(), Error>) {
        encoder.emit_int(*self as i128)
    }

    fn to_bytes(&self) -> (r: Result<Vec<u8>, Error>) {
        proof {
            Self::lemma_depth_bounded(self);
        }
        let limit = Self::max_depth();
        let mut item = SingleItemEncoder::new(limit);
        let res = self.encode(&mut item);
        match res {
            Ok(()) => {
                proof {
                    assert(item.bytes() =~= encoding(self.bval()));
                }
                Ok(item.into_bytes())
            },
            Err(e) => Err(e),
        }
    }
}

impl Encodable for usize {
    open spec fn bval(&self) -> BValue {
        BValue::Int(*self as int)
    }

    open spec fn max_depth_spec() -> nat {
        1
    }

    proof fn lemma_depth_bounded(v: &Self) {
    }

    fn max_depth() -> (d: usize) {
        1
    }

    fn encode(&self, encoder: &mut SingleItemEncoder) -> (r: Result<(), Error>) {
        encoder.emit_int(*self as i128)
    }

    fn to_bytes(&self) -> (r: Result<Vec<u8>, Error>) {
        proof {
            Self::lemma_depth_bounded(self);
        }
        let limit = Self::max_depth();
        let mut item = SingleItemEncoder::new(limit);
        let res = self.encode(&mut item);
        match res {
            Ok(()) => {
                proof {
                    assert(item.bytes() =~= encoding(self.bval()));
                }
                Ok(item.into_bytes())
            },
            Err(e) => Err(e),
        }
    }
}

impl Encodable for i8 {
    open spec fn bval(&self) -> BValue {
        BValue::Int(*self as int)
    }

    open spec fn max_depth_spec() -> nat {
        1
    }

    proof fn lemma_depth_bounded(v: &Self) {
    }

    fn max_depth() -> (d: usize) {
        1
    }

    fn encode(&self, encoder: &mut SingleItemEncoder) -> (r: Result<(), Error>) {
        encoder.emit_int(*self as i128)
    }

    fn to_bytes(&self) -> (r: Result<Vec<u8>, Error>) {
        proof {
            Self::lemma_depth_bounded(self);
        }
        let limit = Self::max_depth();
        let mut item = SingleItemEncoder::new(limit);
        let res = self.encode(&mut item);
        match res {
            Ok(()) => {
                proof {
                    assert(item.bytes() =~= encoding(self.bval()));
                }
                Ok(item.into_bytes())
            },
            Err(e) => Err(e),
        }
    }
}

impl Encodable for i16 {
    open spec fn bval(&self) -> BValue {
        BValue::Int(*self as int)
    }

    open spec fn max_depth_spec() -> nat {
        1
    }

    proof fn lemma_depth_bounded(v: &Self) {
    }

    fn max_depth() -> (d: usize) {
        1
    }

    fn encode(&self, encoder: &mut SingleItemEncoder) -> (r: Result<(), Error>) {
        encoder.emit_int(*self as i128)
    }

    fn to_bytes(&self) -> (r: Result<Vec<u8>, Error>) {
        proof {
            Self::lemma_depth_bounded(self);
        }
        let limit = Self::max_depth();
        let mut item = SingleItemEncoder::new(limit);
        let res = self.encode(&mut item);
        match res {
            Ok(()) => {
                proof {
                    assert(item.bytes() =~= encoding(self.bval()));
                }
                Ok(item.into_bytes())
            },
            Err(e) => Err(e),
        }
    }
}

impl Encodable for i32 {
    open spec fn bval(&self) -> BValue {
        BValue::Int(*self as int)
    }

    open spec fn max_depth_spec() -> nat {
        1
    }

    proof fn lemma_depth_bounded(v: &Self) {
    }

    fn max_depth() -> (d: usize) {
        1
    }

    fn encode(&self, encoder: &mut SingleItemEncoder) -> (r: Result<(), Error>) {
        encoder.emit_int(*self as i128)
    }

    fn to_bytes(&self) -> (r: Result<Vec<u8>, Error>) {
        proof {
            Self::lemma_depth_bounded(self);
        }
        let limit = Self::max_depth();
        let mut item = SingleItemEncoder::new(limit);
        let res = self.encode(&mut item);
        match res {
            Ok(()) => {
                proof {
                    assert(item.bytes() =~= encoding(self.bval()));
                }
                Ok(item.into_bytes())
            },
            Err(e) => Err(e),
        }
    }
}

impl Encodable for i64 {
    open spec fn bval(&self) -> BValue {
        BValue::Int(*self as int)
    }

    open spec fn max_depth_spec() -> nat {
        1
    }

    proof fn lemma_depth_bounded(v: &Self) {
    }

    fn max_depth() -> (d: usize) {
        1
    }

    fn encode(&self, encoder: &mut SingleItemEncoder) -> (r: Result<(), Error>) {
        encoder.emit_int(*self as i128)
    }

    fn to_bytes(&self) -> (r: Result<Vec<u8>, Error>) {
        proof {
            Self::lemma_depth_bounded(self);
        }
        let limit = Self::max_depth();
        let mut item = SingleItemEncoder::new(limit);
        let res = self.encode(&mut item);
        match res {
            Ok(()) => {
                proof {
                    assert(item.bytes() =~= encoding(self.bval()));
                }
                Ok(item.into_bytes())
            },
            Err(e) => Err(e),
        }
    }
}

impl Encodable for isize {
    open spec fn bval(&self) -> BValue {
        BValue::Int(*self as int)
    }

    open spec fn max_depth_spec() -> nat {
        1
    }

    proof fn lemma_depth_bounded(v: &Self) {
    }

    fn max_depth() -> (d: usize) {
        1
    }

    fn encode(&self, encoder: &mut SingleItemEncoder) -> (r: Result<(), Error>) {
        encoder.emit_int(*self as i128)
    }

    fn to_bytes(&self) -> (r: Result<Vec<u8>, Error>) {
        proof {
            Self::lemma_depth_bounded(self);
        }
        let limit = Self::max_depth();
        let mut item = SingleItemEncoder::new(limit);
        let res = self.encode(&mut item);
        match res {
            Ok(()) => {
                proof {
                    assert(item.bytes() =~= encoding(self.bval()));
                }
                Ok(item.into_bytes())
            },
            Err(e) => Err(e),
        }
    }
}

} // verus!

//! A sample composite record, showing how a user-defined struct implements
//! the encoding capability: it emits itself as a dictionary whose pairs are
//! written in their fixed, already ascending key order.

use crate::encodable::{AsString, Encodable};
use crate::encoder::{Error, SingleItemEncoder};
use crate::value::{
    byte_str_enc, depth_of, dict_depth, dict_enc, encoding, lemma_dict_depth_ge,
    lemma_list_depth_le, BValue, TOK_DICT, TOK_END,
};
use vstd::prelude::*;

verus! {

/// A record with an unsigned integer field, a text-list field and a raw-byte
/// field, serialized as the dictionary `d3:bar...3:baz...3:qux...e`.
pub struct Foo {
    pub bar: u32,
    pub baz: Vec<String>,
    pub qux: Vec<u8>,
}

impl Foo {
    /// The dictionary pairs the record serializes as, in their fixed
    /// (already ascending) key order.
    pub open spec fn pairs(&self) -> Seq<(Seq<u8>, BValue)> {
        seq![
            (seq![98u8, 97u8, 114u8], self.bar.bval()),
            (seq![98u8, 97u8, 122u8], self.baz.bval()),
            (seq![113u8, 117u8, 120u8], BValue::Bytes(self.qux@)),
        ]
    }
}

impl Encodable for Foo {
    open spec fn bval(&self) -> BValue {
        BValue::Dict(self.pairs())
    }

    open spec fn max_depth_spec() -> nat {
        2
    }

    proof fn lemma_depth_bounded(v: &Self) {
        let ps = v.pairs();
        <Vec<String> as Encodable>::lemma_depth_bounded(&v.baz);
        assert(depth_of(ps[0].1) == 0);
        assert(depth_of(ps[1].1) <= 1);
        assert(depth_of(ps[2].1) == 0);
        assert(dict_depth(ps, 3) == 0);
        assert(dict_depth(ps, 2) <= 1);
        assert(dict_depth(ps, 1) <= 1);
        assert(dict_depth(ps, 0) <= 1);
        assert(depth_of(v.bval()) == 1 + dict_depth(ps, 0));
    }

    fn max_depth() -> (d: usize) {
        2
    }

    fn encode(&self, encoder: &mut SingleItemEncoder) -> (r: Result<(), Error>) {
        let ghost ps = self.pairs();
        let res = encoder.open_dict();
        match res {
            Ok(()) => {},
            Err(e) => {
                proof {
                    assert(depth_of(self.bval()) == 1 + dict_depth(ps, 0));
                }
                return Err(e);
            },
        }
        let k1: [u8; 3] = [98, 97, 114];
        let res1 = encoder.emit_pair(k1.as_slice(), &self.bar);
        match res1 {
            Ok(()) => {},
            Err(e) => {
                return Err(e);
            },
        }
        let k2: [u8; 3] = [98, 97, 122];
        let res2 = encoder.emit_pair(k2.as_slice(), &self.baz);
        match res2 {
            Ok(()) => {},
            Err(e) => {
                proof {
                    lemma_dict_depth_ge(ps, 0, 1);
                    assert(depth_of(self.bval()) == 1 + dict_depth(ps, 0));
                }
                return Err(e);
            },
        }
        let k3: [u8; 3] = [113, 117, 120];
        let wrapped = AsString(&self.qux);
        let res3 = encoder.emit_pair(k3.as_slice(), &wrapped);
        match res3 {
            Ok(()) => {},
            Err(e) => {
                return Err(e);
            },
        }
        proof {
            let strings = self.baz@.map_values(|t: String| t.bval());
            lemma_list_depth_le(strings, 0, 0);
            assert(depth_of(ps[0].1) == 0);
            assert(depth_of(ps[1].1) == 1);
            assert(depth_of(ps[2].1) == 0);
            assert(dict_depth(ps, 3) == 0);
            assert(dict_depth(ps, 2) == 0);
            assert(dict_depth(ps, 1) == 1);
            assert(dict_depth(ps, 0) == 1);
            assert(depth_of(self.bval()) == 1 + dict_depth(ps, 0));
            assert(dict_enc(ps, 3) == Seq::<u8>::empty());
            assert(dict_enc(ps, 2) == byte_str_enc(ps[2].0) + encoding(ps[2].1) + dict_enc(
                ps,
                3,
            ));
            assert(dict_enc(ps, 1) == byte_str_enc(ps[1].0) + encoding(ps[1].1) + dict_enc(
                ps,
                2,
            ));
            assert(dict_enc(ps, 0) == byte_str_enc(ps[0].0) + encoding(ps[0].1) + dict_enc(
                ps,
                1,
            ));
        }
        encoder.close_dict();
        proof {
            assert(encoding(self.bval()) == seq![TOK_DICT] + dict_enc(ps, 0) + seq![TOK_END]);
            assert(encoder.bytes() =~= old(encoder).bytes() + encoding(self.bval()));
        }
        Ok(())
    }

    fn to_bytes(&self) -> (r: Result<Vec<u8>, Error>) {
        proof {
            Self::lemma_depth_bounded(self);
        }
        let limit = Self::max_depth();
        let mut item = SingleItemEncoder::new(limit);
        let res = self.encode(&mut item);
        match res {
            Ok(()) => {
                proof {
                    assert(item.bytes() =~= encoding(self.bval()));
                }
                Ok(item.into_bytes())
            },
            Err(e) => Err(e),
        }
    }
}

} // verus!

//! The emission context and the driver.
//!
//! [`SingleItemEncoder`] is the handle a value's `encode` operation writes
//! into: it owns the output bytes, the current nesting level and the depth
//! ceiling.  Its primitive operations append exactly the canonical token of
//! the value they emit, and the container operations check the ceiling before
//! entering a list or dictionary body.
//!
//! [`Encoder`] owns one emission end to end: it is created, optionally
//! reconfigured, used for exactly one top-level emission, and then queried
//! for the finished bytes.

use crate::encodable::Encodable;
use crate::value::{
    byte_str_enc, dec_digits, depth_of, encoding, BValue, TOK_COLON, TOK_DICT, TOK_END, TOK_INT,
    TOK_LIST, TOK_MINUS,
};
use vstd::prelude::*;
use vstd::string::StringSliceAdditionalSpecFns;

verus! {

/// The failures an emission can surface.
#[derive(Clone, Copy, Debug, PartialEq, Eq, Structural)]
pub enum Error {
    /// Entering one more list or dictionary level would exceed the
    /// configured depth ceiling.
    DepthLimitExceeded,
    /// A second top-level emission was attempted on the same driver.
    AlreadyEmitted,
    /// The output was requested although no emission has completed.
    NotYetEmitted,
}

/// The context one value is emitted into: the growing output buffer, the
/// current container nesting and the ceiling it is checked against.
pub struct SingleItemEncoder {
    out: Vec<u8>,
    depth: usize,
    limit: usize,
}

impl SingleItemEncoder {
    /// The bytes written so far.
    pub closed spec fn bytes(&self) -> Seq<u8> {
        self.out@
    }

    /// The container levels currently open.
    pub closed spec fn nesting(&self) -> nat {
        self.depth as nat
    }

    /// The configured depth ceiling.
    pub closed spec fn ceiling(&self) -> nat {
        self.limit as nat
    }

    /// A fresh context with nothing written and no container open.
    pub fn new(limit: usize) -> (r: Self)
        ensures
            r.bytes() == Seq::<u8>::empty(),
            r.nesting() == 0,
            r.ceiling() == limit as nat,
    {
        SingleItemEncoder { out: Vec::new(), depth: 0, limit }
    }

    /// Finalizes the context into the bytes it accumulated.
    pub fn into_bytes(self) -> (r: Vec<u8>)
        ensures
            r@ == self.bytes(),
    {
        self.out
    }

    /// Appends the decimal digits of `n`.
    fn push_decimal(&mut self, n: u128)
        ensures
            final(self).ceiling() == old(self).ceiling(),
            final(self).nesting() == old(self).nesting(),
            final(self).bytes() == old(self).bytes() + dec_digits(n as nat),
        decreases n,
    {
        if n < 10 {
            self.out.push(48 + n as u8);
            assert(final(self).bytes() =~= old(self).bytes() + dec_digits(n as nat));
        } else {
            self.push_decimal(n / 10);
            self.out.push(48 + (n % 10) as u8);
            assert(final(self).bytes() =~= old(self).bytes() + dec_digits(n as nat));
        }
    }

    /// Writes a raw byte string as one `<length>:<bytes>` token.
    pub fn emit_bytes(&mut self, b: &[u8]) -> (r: Result<(), Error>)
        ensures
            r is Ok,
            final(self).ceiling() == old(self).ceiling(),
            final(self).nesting() == old(self).nesting(),
            final(self).bytes() == old(self).bytes() + byte_str_enc(b@),
    {
        self.push_decimal(b.len() as u128);
        self.out.push(TOK_COLON);
        let mut i: usize = 0;
        while i < b.len()
            invariant
                i <= b.len(),
                self.ceiling() == old(self).ceiling(),
                self.nesting() == old(self).nesting(),
                self.bytes() == old(self).bytes() + dec_digits(b@.len()) + seq![TOK_COLON]
                    + b@.subrange(0, i as int),
            decreases b.len() - i,
        {
            self.out.push(b[i]);
            assert(self.bytes() =~= old(self).bytes() + dec_digits(b@.len()) + seq![TOK_COLON]
                + b@.subrange(0, i + 1));
            i = i + 1;
        }
        assert(b@.subrange(0, b@.len() as int) =~= b@);
        assert(final(self).bytes() =~= old(self).bytes() + byte_str_enc(b@));
        Ok(())
    }

    /// Writes UTF-8 text as one byte-string token.
    pub fn emit_str(&mut self, s: &str) -> (r: Result<(), Error>)
        ensures
            r is Ok,
            final(self).ceiling() == old(self).ceiling(),
            final(self).nesting() == old(self).nesting(),
            final(self).bytes() == old(self).bytes() + byte_str_enc(s.spec_bytes()),
    {
        self.emit_bytes(s.as_bytes())
    }

    /// Writes one canonical `i<digits>e` integer token.
    pub fn emit_int(&mut self, value: i128) -> (r: Result<(), Error>)
        ensures
            r is Ok,
            final(self).ceiling() == old(self).ceiling(),
            final(self).nesting() == old(self).nesting(),
            final(self).bytes() == old(self).bytes() + encoding(BValue::Int(value as int)),
    {
        self.out.push(TOK_INT);
        if value < 0 {
            self.out.push(TOK_MINUS);
            let mag: u128 = ((-(value + 1)) as u128) + 1;
            assert(mag as nat == (-(value as int)) as nat);
            self.push_decimal(mag);
        } else {
            self.push_decimal(value as u128);
        }
        self.out.push(TOK_END);
        assert(final(self).bytes() =~= old(self).bytes() + encoding(
            BValue::Int(value as int),
        ));
        Ok(())
    }

    /// Opens a list body, taking one nesting level; fails if that would
    /// cross the ceiling, leaving the context untouched.
    pub fn open_list(&mut self) -> (r: Result<(), Error>)
        ensures
            final(self).ceiling() == old(self).ceiling(),
            r is Ok <==> old(self).nesting() + 1 <= old(self).ceiling(),
            r is Ok ==> final(self).nesting() == old(self).nesting() + 1
                && final(self).bytes() == old(self).bytes() + seq![TOK_LIST],
            r is Err ==> *final(self) == *old(self) && r == Err::<(), Error>(
                Error::DepthLimitExceeded,
            ),
    {
        if self.depth >= self.limit {
            Err(Error::DepthLimitExceeded)
        } else {
            self.depth = self.depth + 1;
            self.out.push(TOK_LIST);
            assert(final(self).bytes() =~= old(self).bytes() + seq![TOK_LIST]);
            Ok(())
        }
    }

    /// Closes the innermost list body, giving the nesting level back.
    pub fn close_list(&mut self)
        requires
            old(self).nesting() >= 1,
        ensures
            final(self).ceiling() == old(self).ceiling(),
            final(self).nesting() == old(self).nesting() - 1,
            final(self).bytes() == old(self).bytes() + seq![TOK_END],
    {
        self.depth = self.depth - 1;
        self.out.push(TOK_END);
        assert(final(self).bytes() =~= old(self).bytes() + seq![TOK_END]);
    }

    /// Opens a dictionary body, taking one nesting level; fails if that
    /// would cross the ceiling, leaving the context untouched.
    pub fn open_dict(&mut self) -> (r: Result<(), Error>)
        ensures
            final(self).ceiling() == old(self).ceiling(),
            r is Ok <==> old(self).nesting() + 1 <= old(self).ceiling(),
            r is Ok ==> final(self).nesting() == old(self).nesting() + 1
                && final(self).bytes() == old(self).bytes() + seq![TOK_DICT],
            r is Err ==> *final(self) == *old(self) && r == Err::<(), Error>(
                Error::DepthLimitExceeded,
            ),
    {
        if self.depth >= self.limit {
            Err(Error::DepthLimitExceeded)
        } else {
            self.depth = self.depth + 1;
            self.out.push(TOK_DICT);
            assert(final(self).bytes() =~= old(self).bytes() + seq![TOK_DICT]);
            Ok(())
        }
    }

    /// Closes the innermost dictionary body, giving the nesting level back.
    pub fn close_dict(&mut self)
        requires
            old(self).nesting() >= 1,
        ensures
            final(self).ceiling() == old(self).ceiling(),
            final(self).nesting() == old(self).nesting() - 1,
            final(self).bytes() == old(self).bytes() + seq![TOK_END],
    {
        self.depth = self.depth - 1;
        self.out.push(TOK_END);
        assert(final(self).bytes() =~= old(self).bytes() + seq![TOK_END]);
    }
}

/// Where a driver stands in its single-use lifecycle.
#[derive(Clone, Copy, Debug, PartialEq, Eq, Structural)]
enum DriverState {
    /// No emission has been attempted yet.
    Fresh,
    /// The one top-level emission completed and the output is ready.
    Done,
    /// An emission was attempted and failed; the driver is spent.
    Failed,
}

/// Default nesting ceiling of a driver that was not reconfigured.
pub const DEFAULT_MAX_DEPTH: usize = 1024;

/// The driver of one emission: it owns the output buffer and the configured
/// depth ceiling, runs exactly one top-level emission, and hands out the
/// finished bytes.
pub struct Encoder {
    out: Vec<u8>,
    limit: usize,
    state: DriverState,
}

impl Encoder {
    /// The configured depth ceiling.
    pub closed spec fn ceiling(&self) -> nat {
        self.limit as nat
    }

    /// Whether no emission has been attempted yet.
    pub closed spec fn is_fresh(&self) -> bool {
        self.state is Fresh
    }

    /// Whether the one emission completed, so the output is ready.
    pub closed spec fn is_done(&self) -> bool {
        self.state is Done
    }

    /// The bytes the completed emission produced.
    pub closed spec fn output_bytes(&self) -> Seq<u8> {
        self.out@
    }

    /// A fresh driver with the generous built-in depth ceiling.
    pub fn new() -> (r: Self)
        ensures
            r.is_fresh(),
            !r.is_done(),
            r.ceiling() == DEFAULT_MAX_DEPTH as nat,
    {
        Encoder { out: Vec::new(), limit: DEFAULT_MAX_DEPTH, state: DriverState::Fresh }
    }

    /// The same driver with its depth ceiling replaced.
    pub fn with_max_depth(self, max_depth: usize) -> (r: Self)
        ensures
            r.ceiling() == max_depth as nat,
            r.is_fresh() == self.is_fresh(),
            r.is_done() == self.is_done(),
            r.output_bytes() == self.output_bytes(),
    {
        Encoder { out: self.out, limit: max_depth, state: self.state }
    }

    /// Performs the one top-level emission this driver is good for.  It
    /// succeeds exactly when no emission was attempted before and the value
    /// nests no deeper than the ceiling; a repeated attempt fails without
    /// touching the state a completed emission left behind.
    pub fn emit<E: Encodable>(&mut self, value: &E) -> (r: Result<(), Error>)
        ensures
            final(self).ceiling() == old(self).ceiling(),
            r is Ok <==> old(self).is_fresh() && depth_of(value.bval()) <= old(self).ceiling(),
            r is Ok ==> final(self).is_done() && final(self).output_bytes() == encoding(
                value.bval(),
            ),
            !old(self).is_fresh() ==> *final(self) == *old(self) && r == Err::<(), Error>(
                Error::AlreadyEmitted,
            ),
            old(self).is_fresh() && r is Err ==> !final(self).is_fresh() && !final(self).is_done()
                && r == Err::<(), Error>(Error::DepthLimitExceeded),
    {
        match self.state {
            DriverState::Fresh => {},
            _ => {
                return Err(Error::AlreadyEmitted);
            },
        }
        let mut item = SingleItemEncoder::new(self.limit);
        let res = value.encode(&mut item);
        match res {
            Ok(()) => {
                proof {
                    assert(item.bytes() =~= encoding(value.bval()));
                }
                self.out = item.into_bytes();
                self.state = DriverState::Done;
                Ok(())
            },
            Err(e) => {
                self.state = DriverState::Failed;
                Err(e)
            },
        }
    }

    /// Finalizes the driver, handing out the bytes the one completed
    /// emission produced; fails while no emission has completed.
    pub fn get_output(self) -> (r: Result<Vec<u8>, Error>)
        ensures
            r is Ok <==> self.is_done(),
            r matches Ok(b) ==> b@ == self.output_bytes(),
            r is Err ==> r == Err::<Vec<u8>, Error>(Error::NotYetEmitted),
    {
        match self.state {
            DriverState::Done => Ok(self.out),
            _ => Err(Error::NotYetEmitted),
        }
    }
}

impl SingleItemEncoder {
    /// Writes one nested value: the single recursive entry point container
    /// encoders use for their elements.
    pub fn emit<E: Encodable>(&mut self, value: &E) -> (r: Result<(), Error>)
        requires
            old(self).nesting() <= old(self).ceiling(),
        ensures
            final(self).ceiling() == old(self).ceiling(),
            r is Ok <==> old(self).nesting() + depth_of(value.bval()) <= old(self).ceiling(),
            r is Ok ==> final(self).nesting() == old(self).nesting()
                && final(self).bytes() == old(self).bytes() + encoding(value.bval()),
            r matches Err(e) ==> e is DepthLimitExceeded,
    {
        value.encode(self)
    }

    /// Writes one dictionary entry: the key as a byte-string token, then the
    /// value.  Order is the caller's charge; pairs must arrive in ascending
    /// key order for the output to be canonical.
    pub fn emit_pair<V: Encodable>(&mut self, key: &[u8], value: &V) -> (r: Result<(), Error>)
        requires
            old(self).nesting() <= old(self).ceiling(),
        ensures
            final(self).ceiling() == old(self).ceiling(),
            r is Ok <==> old(self).nesting() + depth_of(value.bval()) <= old(self).ceiling(),
            r is Ok ==> final(self).nesting() == old(self).nesting()
                && final(self).bytes() == old(self).bytes() + byte_str_enc(key@) + encoding(
                value.bval()),
            r matches Err(e) ==> e is DepthLimitExceeded,
    {
        let res = self.emit_bytes(key);
        match res {
            Ok(()) => {},
            Err(e) => {
                return Err(e);
            },
        }
        value.encode(self)
    }
}

} // verus!

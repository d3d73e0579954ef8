//! Commands and their wire encoding: each argument's text bytes followed by
//! the CR LF delimiter, in order.

use vstd::prelude::*;

use crate::frame::{CR, LF};
use crate::num::dec_digits;
use vstd::string::{StrSliceExecFns, StringSliceAdditionalSpecFns};

verus! {

/// One command argument, held as its canonical text bytes.
pub struct Arg(Vec<u8>);

impl View for Arg {
    type V = Seq<u8>;

    /// The argument's text bytes.
    closed spec fn view(&self) -> Seq<u8> {
        self.0@
    }
}

/// An argument may not contain a delimiter byte: the line-oriented encoding
/// cannot represent it, so encoding such an argument is a caller error.
pub open spec fn arg_clean(a: Seq<u8>) -> bool {
    forall|i: int| 0 <= i < a.len() ==> #[trigger] a[i] != CR && a[i] != LF
}

impl Arg {
    /// An argument holding the UTF-8 bytes of `s`.
    pub fn text(s: &str) -> (r: Arg)
        ensures
            r@ == s.spec_bytes(),
    {
        Arg(s.as_bytes_vec())
    }

    /// An argument holding the decimal digits of `v`.
    pub fn num(v: usize) -> (r: Arg)
        ensures
            r@ == dec_digits(v as int),
    {
        Arg(crate::num::format_u64(v as u64))
    }
}

/// The wire bytes of an argument list: each argument's bytes, then CR LF.
pub open spec fn encode_args(args: Seq<Seq<u8>>) -> Seq<u8>
    decreases args.len(),
{
    if args.len() == 0 {
        Seq::empty()
    } else {
        encode_args(args.drop_last()) + args.last() + seq![CR, LF]
    }
}

/// An ordered sequence of arguments, the first being the operation name,
/// built incrementally and consumed once to produce the request bytes.
pub struct Cmd {
    args: Vec<Arg>,
}

impl View for Cmd {
    type V = Seq<Seq<u8>>;

    /// The argument byte strings, in order.
    closed spec fn view(&self) -> Seq<Seq<u8>> {
        self.args@.map_values(|a: Arg| a@)
    }
}

impl Cmd {
    /// A command with no arguments yet.
    pub fn new() -> (r: Cmd)
        ensures
            r@ == Seq::<Seq<u8>>::empty(),
    {
        let r = Cmd { args: Vec::new() };
        proof {
            assert(r@ =~= Seq::<Seq<u8>>::empty());
        }
        r
    }

    /// Appends one argument.
    pub fn arg(self, a: Arg) -> (r: Cmd)
        ensures
            r@ == self@.push(a@),
    {
        let mut args = self.args;
        let ghost before = args@;
        args.push(a);
        let r = Cmd { args };
        proof {
            assert(r@ =~= before.map_values(|x: Arg| x@).push(a@));
        }
        r
    }

    /// The request bytes: for each argument in order, its text bytes followed
    /// by CR LF. No argument may carry a delimiter byte of its own.
    pub fn bytes(self) -> (r: Vec<u8>)
        requires
            forall|i: int| 0 <= i < self@.len() ==> arg_clean(#[trigger] self@[i]),
        ensures
            r@ == encode_args(self@),
    {
        let mut acc: Vec<u8> = Vec::new();
        let n = self.args.len();
        let mut k: usize = 0;
        while k < n
            invariant
                0 <= k <= n,
                n == self.args@.len(),
                n == self@.len(),
                forall|i: int| 0 <= i < self@.len() ==> self@[i] == self.args@[i]@,
                acc@ =~= encode_args(self@.subrange(0, k as int)),
            decreases n - k,
        {
            let ghost pre = self@.subrange(0, k as int);
            acc.extend_from_slice(self.args[k].0.as_slice());
            acc.push(CR);
            acc.push(LF);
            k += 1;
            proof {
                let ext = self@.subrange(0, k as int);
                assert(ext.drop_last() =~= pre);
                assert(ext.last() == self@[k - 1]);
                assert(acc@ =~= encode_args(pre) + self@[k - 1] + seq![CR, LF]);
            }
        }
        proof {
            assert(self@.subrange(0, n as int) =~= self@);
        }
        acc
    }
}

} // verus!

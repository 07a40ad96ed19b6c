//! Fields that hold a run of elements.
use vstd::prelude::*;

use crate::cursor::Cursor;
use crate::error::{Error, Result};
use crate::scalar;
use crate::varint;

verus! {

/// Decodes the `int32`s that make up `s`; the first that fails is what is wrong
/// with `s`.
pub open spec fn int32s(s: Seq<u8>) -> Result<Seq<i32>>
    decreases s.len(),
{
    if s.len() == 0 {
        Ok(Seq::empty())
    } else {
        let first = scalar::int32(s);
        match first.out {
            Ok(v) => match int32s(s.skip(first.used as int)) {
                Ok(rest) => Ok(seq![v] + rest),
                Err(error) => Err(error),
            },
            Err(error) => Err(error),
        }
    }
}

/// Behind a run of whole `int32`s the rest is decoded on its own.
pub proof fn lemma_int32s_concat(a: Seq<u8>, b: Seq<u8>)
    requires
        int32s(a) is Ok,
    ensures
        int32s(a + b) == match int32s(b) {
            Ok(rest) => Ok::<Seq<i32>, Error>(int32s(a)->Ok_0 + rest),
            Err(error) => Err::<Seq<i32>, Error>(error),
        },
    decreases a.len(),
{
    if a.len() == 0 {
        assert(a + b =~= b);
        match int32s(b) {
            Ok(rest) => {
                assert(Seq::<i32>::empty() + rest =~= rest);
            },
            Err(error) => {},
        }
    } else {
        let n = scalar::int32(a).used as int;
        varint::lemma_varint_prefix(a, b);
        assert((a + b).skip(n) =~= a.skip(n) + b);
        lemma_int32s_concat(a.skip(n), b);
        match int32s(b) {
            Ok(rest) => {
                let v = scalar::int32(a).out->Ok_0;
                let mid = int32s(a.skip(n))->Ok_0;
                assert(seq![v] + (mid + rest) =~= (seq![v] + mid) + rest);
            },
            Err(error) => {},
        }
    }
}

/// One more whole `int32` behind a run of them.
pub proof fn lemma_int32s_push(a: Seq<u8>, b: Seq<u8>)
    requires
        int32s(a) is Ok,
        scalar::int32(b).out is Ok,
        scalar::int32(b).used == b.len(),
    ensures
        int32s(a + b) == Ok::<Seq<i32>, Error>(
            int32s(a)->Ok_0.push(scalar::int32(b).out->Ok_0),
        ),
{
    let v = scalar::int32(b).out->Ok_0;
    lemma_int32s_concat(a, b);
    varint::lemma_varint_prefix(b, Seq::empty());
    assert(b.skip(b.len() as int) =~= Seq::empty());
    assert(int32s(Seq::empty()) == Ok::<Seq<i32>, Error>(Seq::empty()));
    assert(seq![v] + Seq::<i32>::empty() =~= seq![v]);
    assert(int32s(a)->Ok_0 + seq![v] =~= int32s(a)->Ok_0.push(v));
}

/// A run of element reads: the cursor before each of them and behind the last,
/// and what each of them gave.
pub struct Trace<M> {
    pub at: Seq<Cursor>,
    pub outs: Seq<Result<M>>,
}

impl<M> Trace<M> {
    /// Whether there was a read number `i`.
    pub open spec fn has(self, i: int) -> bool {
        0 <= i < self.outs.len()
    }

    /// One more read, which gave `out` and left the cursor at `to`.
    pub open spec fn push(self, out: Result<M>, to: Cursor) -> Trace<M> {
        Trace { at: self.at.push(to), outs: self.outs.push(out) }
    }

    /// One more read leaves the earlier ones as they are.
    pub proof fn lemma_push(self, out: Result<M>, to: Cursor)
        requires
            self.at.len() == self.outs.len() + 1,
        ensures
            forall|i: int| #[trigger]
                self.push(out, to).has(i) ==> {
                    let next = self.push(out, to);
                    &&& next.at[i] == self.at[i]
                    &&& self.has(i) ==> next.at[i + 1] == self.at[i + 1] && next.outs[i]
                        == self.outs[i]
                    &&& !self.has(i) ==> next.at[i + 1] == to && next.outs[i] == out
                },
    {
    }

    /// Whether the elements of `body` were read one after another, for as long
    /// as something was left and no read failed, and were collected into `out`.
    pub open spec fn collects(self, body: Cursor, out: Result<Vec<M>>) -> bool {
        &&& self.at.len() == self.outs.len() + 1
        &&& self.at[0] == body
        &&& forall|i: int|
            0 <= i < self.outs.len() ==> (#[trigger] self.at[i]).start < self.at[i].end
        &&& forall|i: int| 0 <= i < self.outs.len() - 1 ==> (#[trigger] self.outs[i]) is Ok
        &&& match out {
            Ok(v) => {
                &&& self.at.last().start == self.at.last().end
                &&& v@.len() == self.outs.len()
                &&& forall|i: int|
                    0 <= i < self.outs.len() ==> #[trigger] self.outs[i] == Ok::<M, Error>(v@[i])
            },
            Err(error) => self.outs.len() > 0 && self.outs.last() == Err::<M, Error>(error),
        }
    }
}

} // verus!

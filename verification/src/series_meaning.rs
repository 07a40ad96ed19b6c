//! What the reads of one thing after another mean: packed fields and map entries, as
//! series of the calls that read their elements.
use vstd::prelude::*;

use crate::batch;
use crate::batch::batch_decode_varint32;
use crate::cursor;
use crate::cursor::Cursor;
use crate::entry;
use crate::entry::{EntryTrace, Part};
use crate::error::{Error, Result};
use crate::field;
use crate::reader::BytesReader;
use crate::repeated;
use crate::repeated::Trace;
use crate::scalar;
use crate::varint;

verus! {

/// A route through the bytes from `start` to the `end` of a field, stop by stop: at
/// every stop but the last something is left.
pub open spec fn route(at: Seq<Cursor>, start: int, end: int) -> bool {
    &&& at.len() > 0
    &&& at[0].start == start && at[0].end == end
    &&& forall|i: int| 0 <= i < at.len() - 1 ==> (#[trigger] at[i]).start < at[i].end
}

/// Whether a route goes on from stop `i`.
pub open spec fn goes_on(at: Seq<Cursor>, i: int) -> bool {
    0 <= i < at.len() - 1
}

/// A trace of element reads is a route.
proof fn lemma_traces_are_routes<M>()
    ensures
        forall|t: Trace<M>, body: Cursor, out: Result<Vec<M>>| #[trigger]
            t.collects(body, out) ==> {
                &&& route(t.at, body.start as int, body.end as int)
                &&& forall|i: int| #[trigger] goes_on(t.at, i) ==> t.has(i)
                &&& out matches Ok(v) ==> t.at.len() == v@.len() + 1 && forall|i: int| #[trigger]
                    goes_on(t.at, i) ==> t.outs[i] == Ok::<M, Error>(v@[i])
                &&& out matches Err(error) ==> t.at.len() > 1 && forall|i: int| #[trigger]
                    goes_on(t.at, i) ==> if i < t.at.len() - 2 {
                        t.outs[i] is Ok
                    } else {
                        t.outs[i] == Err::<M, Error>(error)
                    }
            },
{
}

/// A packed field is read element by element: the first from where the length ends,
/// each other one from where the one before it ended, for as long as something is left.
/// The elements are what the calls gave, in their order, one for one; the first that
/// fails is what the read gives, and ends it.
///
/// That `read` is called no more often than this is left unsaid: to Verus a function
/// keeps no state from call to call, so that a further call would show in nothing.
pub proof fn law_packed_is_read_in_order<'a, M, F>(bytes: &'a [u8], read: F) where
    F: FnMut(&mut BytesReader, &'a [u8]) -> Result<M>,

    ensures
        forall|r: &mut BytesReader, q: &mut BytesReader, len: Result<u32>, out: Result<Vec<M>>|
            {
                &&& r@ == q@
                &&& r@.end <= bytes@.len()
                &&& #[trigger] call_ensures(BytesReader::read_varint32, (q, bytes), len)
                &&& #[trigger] call_ensures(BytesReader::read_packed::<M, F>, (r, bytes, read), out)
            } ==> {
                let p = final(q)@.start as int;
                &&& final(r)@.end == r@.end
                &&& match len {
                    Ok(n) => if p + n <= r@.end {
                        exists|at: Seq<Cursor>|
                            {
                                &&& #[trigger] route(at, p, p + n)
                                &&& final(r)@.start == at.last().end
                                &&& match out {
                                    Ok(v) => {
                                        &&& at.len() == v@.len() + 1
                                        &&& at.last().start == at.last().end
                                        &&& forall|i: int| #[trigger]
                                            goes_on(at, i) ==> exists|o: &mut BytesReader|
                                                o@ == at[i] && final(o)@ == at[i + 1]
                                                    && #[trigger] call_ensures(
                                                    read,
                                                    (o, bytes),
                                                    Ok::<M, Error>(v@[i]),
                                                )
                                    },
                                    Err(error) => {
                                        &&& at.len() > 1
                                        &&& forall|i: int| #[trigger]
                                            goes_on(at, i) ==> exists|
                                                o: &mut BytesReader,
                                                m: Result<M>,
                                            |
                                                {
                                                    &&& o@ == at[i] && final(o)@ == at[i + 1]
                                                    &&& #[trigger] call_ensures(
                                                        read,
                                                        (o, bytes),
                                                        m,
                                                    )
                                                    &&& if i < at.len() - 2 {
                                                        m is Ok
                                                    } else {
                                                        m == Err::<M, Error>(error)
                                                    }
                                                }
                                    },
                                }
                            }
                    } else {
                        &&& out == Err::<Vec<M>, Error>(Error::UnexpectedEndOfBuffer)
                        &&& final(r)@.start == p
                    },
                    Err(error) => out == Err::<Vec<M>, Error>(error) && final(r)@.start == p,
                }
            },
{
    varint::lemma_runs();
    lemma_traces_are_routes::<M>();
}

/// Whether `x` is the last of what was found, or `default` if nothing was.
pub open spec fn is_last<T>(found: Seq<Option<T>>, default: T, x: T) -> bool {
    ||| exists|i: int|
        0 <= i < found.len() && #[trigger] found[i] == Some(x) && forall|j: int|
            i < j < found.len() ==> (#[trigger] found[j]) is None
    ||| x == default && forall|j: int| 0 <= j < found.len() ==> (#[trigger] found[j]) is None
}

/// A route through a map entry, and what was found between its stops.
pub open spec fn entry_route<K, V>(
    at: Seq<Cursor>,
    keys: Seq<Option<K>>,
    values: Seq<Option<V>>,
    start: int,
    end: int,
) -> bool {
    &&& route(at, start, end)
    &&& keys.len() == at.len() - 1
    &&& values.len() == at.len() - 1
}

/// The keys that the rounds of a map entry found.
spec fn keys_of<K, V>(parts: Seq<Part<K, V>>) -> Seq<Option<K>> {
    Seq::new(
        parts.len(),
        |i: int|
            match parts[i] {
                Part::Key(Ok(k)) => Some(k),
                _ => None,
            },
    )
}

/// The values that the rounds of a map entry found.
spec fn values_of<K, V>(parts: Seq<Part<K, V>>) -> Seq<Option<V>> {
    Seq::new(
        parts.len(),
        |i: int|
            match parts[i] {
                Part::Value(Ok(v)) => Some(v),
                _ => None,
            },
    )
}

/// The last key is the last of the keys that were found.
proof fn lemma_last_key<K, V>(parts: Seq<Part<K, V>>, default: K)
    ensures
        is_last(keys_of(parts), default, entry::last_key(parts, default)),
    decreases parts.len(),
{
    let found = keys_of(parts);
    if parts.len() > 0 {
        let front = parts.drop_last();
        let n = parts.len() - 1;
        lemma_last_key(front, default);
        assert(forall|j: int| 0 <= j < n ==> #[trigger] found[j] == keys_of(front)[j]);
        if found[n] is None {
            let x = entry::last_key(front, default);
            if exists|i: int|
                0 <= i < n && #[trigger] keys_of(front)[i] == Some(x) && forall|j: int|
                    i < j < n ==> (#[trigger] keys_of(front)[j]) is None {
                let i = choose|i: int|
                    0 <= i < n && #[trigger] keys_of(front)[i] == Some(x) && forall|j: int|
                        i < j < n ==> (#[trigger] keys_of(front)[j]) is None;
                assert(found[i] == Some(x));
                assert forall|j: int| i < j < found.len() implies (#[trigger] found[j]) is None by {
                    if j < n {
                        assert(keys_of(front)[j] is None);
                    }
                }
            } else {
                assert forall|j: int|
                    0 <= j < found.len() implies (#[trigger] found[j]) is None by {
                    if j < n {
                        assert(keys_of(front)[j] is None);
                    }
                }
            }
        } else {
            assert(found[n] == Some(entry::last_key(parts, default)));
        }
    }
}

/// The last value is the last of the values that were found.
proof fn lemma_last_value<K, V>(parts: Seq<Part<K, V>>, default: V)
    ensures
        is_last(values_of(parts), default, entry::last_value(parts, default)),
    decreases parts.len(),
{
    let found = values_of(parts);
    if parts.len() > 0 {
        let front = parts.drop_last();
        let n = parts.len() - 1;
        lemma_last_value(front, default);
        assert(forall|j: int| 0 <= j < n ==> #[trigger] found[j] == values_of(front)[j]);
        if found[n] is None {
            let x = entry::last_value(front, default);
            if exists|i: int|
                0 <= i < n && #[trigger] values_of(front)[i] == Some(x) && forall|j: int|
                    i < j < n ==> (#[trigger] values_of(front)[j]) is None {
                let i = choose|i: int|
                    0 <= i < n && #[trigger] values_of(front)[i] == Some(x) && forall|j: int|
                        i < j < n ==> (#[trigger] values_of(front)[j]) is None;
                assert(found[i] == Some(x));
                assert forall|j: int| i < j < found.len() implies (#[trigger] found[j]) is None by {
                    if j < n {
                        assert(values_of(front)[j] is None);
                    }
                }
            } else {
                assert forall|j: int|
                    0 <= j < found.len() implies (#[trigger] found[j]) is None by {
                    if j < n {
                        assert(values_of(front)[j] is None);
                    }
                }
            }
        } else {
            assert(found[n] == Some(entry::last_value(parts, default)));
        }
    }
}

/// The rounds of a map entry are a route, with what they found between its stops.
proof fn lemma_entries_are_routes<K, V>(bytes: Seq<u8>)
    ensures
        forall|t: EntryTrace<K, V>, body: Cursor, key: K, value: V, out: Result<(K, V)>|
            #![trigger t.covers(body, bytes), t.gives(key, value, out)]
            t.covers(body, bytes) && t.gives(key, value, out) ==> {
                let keys = keys_of(t.parts);
                let values = values_of(t.parts);
                &&& entry_route(t.at, keys, values, body.start as int, body.end as int)
                &&& forall|i: int| #[trigger]
                    goes_on(t.at, i) ==> {
                        let number = bytes[t.at[i].start as int] / 8;
                        &&& t.has(i)
                        &&& match t.parts[i] {
                            Part::Key(got) => number == 1 && values[i] is None && (got matches Ok(k)
                                ==> keys[i] == Some(k)),
                            Part::Value(got) => number == 2 && keys[i] is None && (got matches Ok(v)
                                ==> values[i] == Some(v)),
                            Part::Other(n) => n == number && number != 1 && number != 2,
                        }
                    }
                &&& match out {
                    Ok(pair) => {
                        &&& is_last(keys, key, pair.0)
                        &&& is_last(values, value, pair.1)
                        &&& forall|i: int| #[trigger]
                            goes_on(t.at, i) ==> t.parts[i].error() is None
                    },
                    Err(error) => t.at.len() > 1 && forall|i: int| #[trigger]
                        goes_on(t.at, i) ==> if i < t.at.len() - 2 {
                            t.parts[i].error() is None
                        } else {
                            t.parts[i].error() == Some(error)
                        },
                }
            },
{
    assert forall|t: EntryTrace<K, V>, body: Cursor, key: K, value: V, out: Result<(K, V)>|
        #![trigger t.covers(body, bytes), t.gives(key, value, out)]
        t.covers(body, bytes) && t.gives(key, value, out) implies {
        let keys = keys_of(t.parts);
        let values = values_of(t.parts);
        &&& entry_route(t.at, keys, values, body.start as int, body.end as int)
        &&& forall|i: int| #[trigger]
            goes_on(t.at, i) ==> {
                let number = bytes[t.at[i].start as int] / 8;
                &&& t.has(i)
                &&& match t.parts[i] {
                    Part::Key(got) => number == 1 && values[i] is None && (got matches Ok(k)
                        ==> keys[i] == Some(k)),
                    Part::Value(got) => number == 2 && keys[i] is None && (got matches Ok(v)
                        ==> values[i] == Some(v)),
                    Part::Other(n) => n == number && number != 1 && number != 2,
                }
            }
        &&& match out {
            Ok(pair) => {
                &&& is_last(keys, key, pair.0)
                &&& is_last(values, value, pair.1)
                &&& forall|i: int| #[trigger] goes_on(t.at, i) ==> t.parts[i].error() is None
            },
            Err(error) => t.at.len() > 1 && forall|i: int| #[trigger]
                goes_on(t.at, i) ==> if i < t.at.len() - 2 {
                    t.parts[i].error() is None
                } else {
                    t.parts[i].error() == Some(error)
                },
        }
    } by {
        lemma_last_key(t.parts, key);
        lemma_last_value(t.parts, value);
        assert forall|i: int| #[trigger] goes_on(t.at, i) implies t.has(i) && t.at[i].window(
            bytes,
        )[0] == bytes[t.at[i].start as int] by {
            assert(t.has(i));
        }
        assert forall|i: int|
            0 <= i < t.at.len() - 1 implies (#[trigger] t.at[i]).start < t.at[i].end by {
            assert(t.has(i));
        }
    }
}

/// A map entry is read part by part, each led by a tag byte: field 1 is the key and
/// field 2 the value, and any other ends the read. The entry is the last key and the
/// last value that were found, however many parts there are and whichever there are
/// none of; a key or value of which there is none is the default one.
///
/// That the two functions are called no more often than this is left unsaid: to Verus a
/// function keeps no state from call to call, so that a further call would show in
/// nothing.
pub proof fn law_map_entry_is_its_last_parts<'a, K: Default, V: Default, F, G>(
    bytes: &'a [u8],
    read_key: F,
    read_val: G,
) where
    F: FnMut(&mut BytesReader, &'a [u8]) -> Result<K>,
    G: FnMut(&mut BytesReader, &'a [u8]) -> Result<V>,

    ensures
        forall|r: &mut BytesReader, q: &mut BytesReader, len: Result<u32>, out: Result<(K, V)>|
            {
                &&& r@ == q@
                &&& r@.end <= bytes@.len()
                &&& #[trigger] call_ensures(BytesReader::read_varint32, (q, bytes), len)
                &&& #[trigger] call_ensures(
                    BytesReader::read_map::<K, V, F, G>,
                    (r, bytes, read_key, read_val),
                    out,
                )
            } ==> {
                let p = final(q)@.start as int;
                &&& final(r)@.end == r@.end
                &&& match len {
                    Ok(n) => if p + n <= r@.end {
                        exists|
                            at: Seq<Cursor>,
                            keys: Seq<Option<K>>,
                            values: Seq<Option<V>>,
                            key: K,
                            value: V,
                        |
                            {
                                &&& #[trigger] entry_route(at, keys, values, p, p + n)
                                &&& #[trigger] call_ensures(K::default, (), key)
                                &&& #[trigger] call_ensures(V::default, (), value)
                                &&& final(r)@.start == at.last().end
                                &&& match out {
                                    Ok(pair) => {
                                        &&& is_last(keys, key, pair.0)
                                        &&& is_last(values, value, pair.1)
                                        &&& at.last().start == at.last().end
                                        &&& forall|i: int| #[trigger]
                                            goes_on(at, i) ==> {
                                                let number = bytes@[at[i].start as int] / 8;
                                                ||| number == 1 && values[i] is None && exists|
                                                    o: &mut BytesReader,
                                                    k: K,
                                                |
                                                    {
                                                        &&& keys[i] == Some(k)
                                                        &&& o@.start == at[i].start + 1
                                                        &&& o@.end == at[i].end
                                                        &&& final(o)@ == at[i + 1]
                                                        &&& #[trigger] call_ensures(
                                                            read_key,
                                                            (o, bytes),
                                                            Ok::<K, Error>(k),
                                                        )
                                                    }
                                                ||| number == 2 && keys[i] is None && exists|
                                                    o: &mut BytesReader,
                                                    v: V,
                                                |
                                                    {
                                                        &&& values[i] == Some(v)
                                                        &&& o@.start == at[i].start + 1
                                                        &&& o@.end == at[i].end
                                                        &&& final(o)@ == at[i + 1]
                                                        &&& #[trigger] call_ensures(
                                                            read_val,
                                                            (o, bytes),
                                                            Ok::<V, Error>(v),
                                                        )
                                                    }
                                            }
                                    },
                                    Err(error) => {
                                        &&& at.len() > 1
                                        &&& forall|i: int| #[trigger]
                                            goes_on(at, i) ==> {
                                                let number = bytes@[at[i].start as int] / 8;
                                                let ends = i == at.len() - 2;
                                                ||| number == 1 && exists|
                                                    o: &mut BytesReader,
                                                    k: Result<K>,
                                                |
                                                    {
                                                        &&& o@.start == at[i].start + 1
                                                        &&& o@.end == at[i].end
                                                        &&& final(o)@ == at[i + 1]
                                                        &&& #[trigger] call_ensures(
                                                            read_key,
                                                            (o, bytes),
                                                            k,
                                                        )
                                                        &&& if ends {
                                                            k == Err::<K, Error>(error)
                                                        } else {
                                                            k is Ok
                                                        }
                                                    }
                                                ||| number == 2 && exists|
                                                    o: &mut BytesReader,
                                                    v: Result<V>,
                                                |
                                                    {
                                                        &&& o@.start == at[i].start + 1
                                                        &&& o@.end == at[i].end
                                                        &&& final(o)@ == at[i + 1]
                                                        &&& #[trigger] call_ensures(
                                                            read_val,
                                                            (o, bytes),
                                                            v,
                                                        )
                                                        &&& if ends {
                                                            v == Err::<V, Error>(error)
                                                        } else {
                                                            v is Ok
                                                        }
                                                    }
                                                ||| number != 1 && number != 2 && ends && error
                                                    == Error::MapField(number as u8)
                                            }
                                    },
                                }
                            }
                    } else {
                        &&& out == Err::<(K, V), Error>(Error::UnexpectedEndOfBuffer)
                        &&& final(r)@.start == p
                    },
                    Err(error) => out == Err::<(K, V), Error>(error) && final(r)@.start == p,
                }
            },
{
    varint::lemma_runs();
    lemma_entries_are_routes::<K, V>(bytes@);
}

/// A chain of `int32` reads: what each gives, and where it leads.
spec fn int32_chain(bytes: Seq<u8>, at: Seq<Cursor>, outs: Seq<Result<i32>>) -> bool {
    &&& at.len() == outs.len() + 1
    &&& forall|i: int| #[trigger]
        goes_on(at, i) ==> {
            &&& at[i].start < at[i].end <= bytes.len()
            &&& scalar::int32(at[i].window(bytes)).done(at[i], at[i + 1], outs[i])
            &&& i < outs.len() - 1 ==> outs[i] is Ok
        }
}

/// What is left behind the first `i` reads of a chain is what the others give.
proof fn lemma_int32_chain(bytes: Seq<u8>, at: Seq<Cursor>, outs: Seq<Result<i32>>, i: int)
    requires
        int32_chain(bytes, at, outs),
        at[0].start <= at[0].end <= bytes.len(),
        0 <= i <= outs.len(),
        outs.len() > 0 && outs.last() is Err ==> i < outs.len(),
        outs.len() > 0 && outs.last() is Err || at.last().start == at.last().end,
    ensures
        at[i].start <= at[i].end == at[0].end,
        outs.len() > 0 && outs.last() is Err ==> repeated::int32s(at[i].window(bytes)) == Err::<
            Seq<i32>,
            Error,
        >(outs.last()->Err_0),
        outs.len() > 0 && outs.last() is Err || repeated::int32s(at[i].window(bytes)) == Ok::<
            Seq<i32>,
            Error,
        >(Seq::new((outs.len() - i) as nat, |j: int| outs[i + j]->Ok_0)),
    decreases outs.len() - i,
{
    lemma_int32_chain_inside(bytes, at, outs, i);
    let w = at[i].window(bytes);
    if i < outs.len() {
        assert(goes_on(at, i));
        varint::lemma_run(w);
        if outs[i] is Ok {
            lemma_int32_chain(bytes, at, outs, i + 1);
            cursor::lemma_window_advance(at[i], bytes, scalar::int32(w).used);
            if !(outs.last() is Err) {
                let rest = Seq::new((outs.len() - (i + 1)) as nat, |j: int| outs[i + 1 + j]->Ok_0);
                assert(seq![outs[i]->Ok_0] + rest =~= Seq::new(
                    (outs.len() - i) as nat,
                    |j: int| outs[i + j]->Ok_0,
                ));
            }
        }
    } else {
        assert(at[i] == at.last());
        assert(Seq::new((outs.len() - i) as nat, |j: int| outs[i + j]->Ok_0) =~= Seq::empty());
    }
}

/// A chain of `int32` reads stays before the end.
proof fn lemma_int32_chain_inside(
    bytes: Seq<u8>,
    at: Seq<Cursor>,
    outs: Seq<Result<i32>>,
    i: int,
)
    requires
        int32_chain(bytes, at, outs),
        at[0].start <= at[0].end <= bytes.len(),
        0 <= i <= outs.len(),
    ensures
        at[i].start <= at[i].end == at[0].end,
    decreases i,
{
    if i > 0 {
        lemma_int32_chain_inside(bytes, at, outs, i - 1);
        assert(goes_on(at, i - 1));
        varint::lemma_run(at[i - 1].window(bytes));
    }
}

/// Chains of `int32` reads over the body of a field, as far as they go, give what the
/// field holds.
proof fn lemma_int32_chains(bytes: Seq<u8>)
    ensures
        forall|at: Seq<Cursor>, outs: Seq<Result<i32>>, body: Cursor|
            #![trigger int32_chain(bytes, at, outs), body.window(bytes)]
            {
                &&& int32_chain(bytes, at, outs)
                &&& at[0] == body
                &&& body.start <= body.end <= bytes.len()
                &&& outs.len() > 0 && outs.last() is Err || at.last().start == at.last().end
            } ==> if outs.len() > 0 && outs.last() is Err {
                repeated::int32s(body.window(bytes)) == Err::<Seq<i32>, Error>(outs.last()->Err_0)
            } else {
                repeated::int32s(body.window(bytes)) matches Ok(v) && v.len() == outs.len()
                    && forall|i: int|
                    0 <= i < outs.len() ==> #[trigger] outs[i] == Ok::<i32, Error>(v[i])
            },
{
    assert forall|at: Seq<Cursor>, outs: Seq<Result<i32>>, body: Cursor|
        #![trigger int32_chain(bytes, at, outs), body.window(bytes)]
        {
            &&& int32_chain(bytes, at, outs)
            &&& at[0] == body
            &&& body.start <= body.end <= bytes.len()
            &&& outs.len() > 0 && outs.last() is Err || at.last().start == at.last().end
        } implies if outs.len() > 0 && outs.last() is Err {
        repeated::int32s(body.window(bytes)) == Err::<Seq<i32>, Error>(outs.last()->Err_0)
    } else {
        repeated::int32s(body.window(bytes)) matches Ok(v) && v.len() == outs.len()
            && forall|i: int|
            0 <= i < outs.len() ==> #[trigger] outs[i] == Ok::<i32, Error>(v[i])
    } by {
        lemma_int32_chain(bytes, at, outs, 0);
        assert forall|i: int| 0 <= i < outs.len() - 1 implies (#[trigger] outs[i]) is Ok by {
            assert(goes_on(at, i));
        }
    }
}

/// A packed `int32` field takes as many bytes as its length says; where fewer are left,
/// the read fails, and stands behind the length.
pub proof fn law_packed_int32_has_its_length<'a>(bytes: &'a [u8])
    ensures
        forall|r: &mut BytesReader, q: &mut BytesReader, len: Result<u32>, out: Result<Vec<i32>>|
            {
                &&& r@ == q@
                &&& r@.end <= bytes@.len()
                &&& #[trigger] call_ensures(BytesReader::read_varint32, (q, bytes), len)
                &&& #[trigger] call_ensures(BytesReader::read_packed_int32, (r, bytes), out)
            } ==> {
                let p = final(q)@.start as int;
                &&& final(r)@.end == r@.end
                &&& match len {
                    Ok(n) => if p + n <= r@.end {
                        final(r)@.start == p + n
                    } else {
                        &&& out == Err::<Vec<i32>, Error>(Error::UnexpectedEndOfBuffer)
                        &&& final(r)@.start == p
                    },
                    Err(error) => out == Err::<Vec<i32>, Error>(error) && final(r)@.start == p,
                }
            },
{
    varint::lemma_runs();
}

/// A packed `int32` field holds what `read_int32` gives, call by call: the first from
/// where the length ends, each other one from where the one before it ended. Where such
/// calls reach the end of the field, their results are the elements; where one fails,
/// that is what the read gives.
pub proof fn law_packed_int32_is_read_in_order(bytes: &[u8])
    ensures
        forall|
            r: &mut BytesReader,
            q: &mut BytesReader,
            n: u32,
            out: Result<Vec<i32>>,
            at: Seq<Cursor>,
            outs: Seq<Result<i32>>,
        |
            {
                &&& r@ == q@
                &&& r@.end <= bytes@.len()
                &&& #[trigger] call_ensures(
                    BytesReader::read_varint32,
                    (q, bytes),
                    Ok::<u32, Error>(n),
                )
                &&& #[trigger] call_ensures(BytesReader::read_packed_int32, (r, bytes), out)
                &&& final(q)@.start + n <= r@.end
                &&& #[trigger] route(at, final(q)@.start as int, final(q)@.start + n)
                &&& at.len() == (#[trigger] outs.len()) + 1
                &&& forall|i: int| #[trigger]
                    goes_on(at, i) ==> (i < outs.len() - 1 ==> outs[i] is Ok) && exists|
                        o: &mut BytesReader,
                    |
                        o@ == at[i] && final(o)@ == at[i + 1] && #[trigger] call_ensures(
                            BytesReader::read_int32,
                            (o, bytes),
                            outs[i],
                        )
            } ==> {
                &&& outs.len() > 0 && outs.last() is Err ==> out == Err::<Vec<i32>, Error>(
                    outs.last()->Err_0,
                )
                &&& at.last().start == at.last().end && (outs.len() > 0 ==> outs.last() is Ok)
                    ==> (out matches Ok(v) && v@.len() == outs.len() && forall|i: int|
                    0 <= i < outs.len() ==> #[trigger] outs[i] == Ok::<i32, Error>(v@[i]))
            },
{
    lemma_int32_chains(bytes@);
    assert forall|
        r: &mut BytesReader,
        q: &mut BytesReader,
        n: u32,
        out: Result<Vec<i32>>,
        at: Seq<Cursor>,
        outs: Seq<Result<i32>>,
    |
        {
            &&& r@ == q@
            &&& r@.end <= bytes@.len()
            &&& #[trigger] call_ensures(
                BytesReader::read_varint32,
                (q, bytes),
                Ok::<u32, Error>(n),
            )
            &&& #[trigger] call_ensures(BytesReader::read_packed_int32, (r, bytes), out)
            &&& final(q)@.start + n <= r@.end
            &&& #[trigger] route(at, final(q)@.start as int, final(q)@.start + n)
            &&& at.len() == (#[trigger] outs.len()) + 1
            &&& forall|i: int| #[trigger]
                goes_on(at, i) ==> (i < outs.len() - 1 ==> outs[i] is Ok) && exists|
                    o: &mut BytesReader,
                |
                    o@ == at[i] && final(o)@ == at[i + 1] && #[trigger] call_ensures(
                        BytesReader::read_int32,
                        (o, bytes),
                        outs[i],
                    )
        } implies {
        &&& outs.len() > 0 && outs.last() is Err ==> out == Err::<Vec<i32>, Error>(
            outs.last()->Err_0,
        )
        &&& at.last().start == at.last().end && (outs.len() > 0 ==> outs.last() is Ok)
            ==> (out matches Ok(v) && v@.len() == outs.len() && forall|i: int|
            0 <= i < outs.len() ==> #[trigger] outs[i] == Ok::<i32, Error>(v@[i]))
    } by {
        varint::lemma_run(r@.window(bytes@));
        let body = field::body(r@, bytes@).out->Ok_0;
        assert(at[0] == body);
        assert forall|i: int| #[trigger] goes_on(at, i) implies scalar::int32(
            at[i].window(bytes@),
        ).done(at[i], at[i + 1], outs[i]) by {}
        lemma_int32_ends(bytes@, at, outs);
        assert(int32_chain(bytes@, at, outs));
        assert(repeated::int32s(body.window(bytes@)) is Ok || repeated::int32s(
            body.window(bytes@),
        ) is Err);
    }
}

/// Reads of `int32`s leave the end alone.
proof fn lemma_int32_ends(bytes: Seq<u8>, at: Seq<Cursor>, outs: Seq<Result<i32>>)
    requires
        at.len() == outs.len() + 1,
        forall|i: int| #[trigger]
            goes_on(at, i) ==> scalar::int32(at[i].window(bytes)).done(at[i], at[i + 1], outs[i]),
    ensures
        forall|i: int| 0 <= i < at.len() ==> (#[trigger] at[i]).end == at[0].end,
{
    assert forall|i: int| 0 <= i < at.len() implies (#[trigger] at[i]).end == at[0].end by {
        lemma_int32_end(bytes, at, outs, i);
    }
}

/// Reads of `int32`s leave the end alone, one by one.
proof fn lemma_int32_end(bytes: Seq<u8>, at: Seq<Cursor>, outs: Seq<Result<i32>>, i: int)
    requires
        at.len() == outs.len() + 1,
        forall|k: int| #[trigger]
            goes_on(at, k) ==> scalar::int32(at[k].window(bytes)).done(at[k], at[k + 1], outs[k]),
        0 <= i < at.len(),
    ensures
        at[i].end == at[0].end,
    decreases i,
{
    if i > 0 {
        lemma_int32_end(bytes, at, outs, i - 1);
        assert(goes_on(at, i - 1));
    }
}

/// Where the batch stops, a whole chunk is not left or the next varint takes more than
/// five bytes.
proof fn lemma_batch_stops(s: Seq<u8>)
    ensures
        batch::batch_end(s) <= s.len(),
        s.len() - batch::batch_end(s) < 16 || forall|j: int|
            batch::batch_end(s) <= j < batch::batch_end(s) + 5 ==> #[trigger] s[j] >= 128,
    decreases s.len(),
{
    if s.len() >= batch::CHUNK_LEN {
        let chunk = s.take(batch::CHUNK_LEN as int);
        let n = batch::chunk_end(chunk, 0);
        batch::lemma_chunk_end(chunk, 0);
        if n == 0 {
            assert(chunk.skip(0) =~= chunk);
            let run = varint::continuation_run(chunk);
            if run < 5 {
                batch::lemma_chunk_end(chunk, run + 1);
            }
            varint::lemma_run(chunk);
            assert forall|j: int| 0 <= j < 5 implies #[trigger] s[j] >= 128 by {
                assert(chunk[j] >= 0x80);
                assert(s[j] == chunk[j]);
            }
        } else {
            let rest = s.skip(n as int);
            lemma_batch_stops(rest);
            if s.len() - batch::batch_end(s) >= 16 {
                let e = batch::batch_end(s);
                assert forall|j: int| e <= j < e + 5 implies #[trigger] s[j] >= 128 by {
                    assert(rest[j - n] >= 128);
                }
            }
        }
    }
}

/// Of a run of whole `int32`s in front of anything, a chain of reads gives the first `i`
/// and stands in front of the others.
proof fn lemma_int32_run_chain(
    bytes: Seq<u8>,
    at: Seq<Cursor>,
    outs: Seq<Result<i32>>,
    run: nat,
    i: int,
)
    requires
        at.len() == outs.len() + 1,
        at[0].start + run <= at[0].end <= bytes.len(),
        forall|k: int| #[trigger]
            goes_on(at, k) ==> scalar::int32(at[k].window(bytes)).done(at[k], at[k + 1], outs[k]),
        repeated::int32s(at[0].window(bytes).take(run as int)) is Ok,
        outs.len() <= repeated::int32s(at[0].window(bytes).take(run as int))->Ok_0.len(),
        0 <= i <= outs.len(),
    ensures
        ({
            let d = repeated::int32s(at[0].window(bytes).take(run as int))->Ok_0;
            let left = at[0].start + run - at[i].start;
            &&& at[i].end == at[0].end
            &&& 0 <= left <= run
            &&& repeated::int32s(at[i].window(bytes).take(left)) == Ok::<Seq<i32>, Error>(d.skip(i))
            &&& forall|k: int| 0 <= k < i ==> #[trigger] outs[k] == Ok::<i32, Error>(d[k])
        }),
    decreases i,
{
    let d = repeated::int32s(at[0].window(bytes).take(run as int))->Ok_0;
    if i == 0 {
        assert(d.skip(0) =~= d);
    } else {
        lemma_int32_run_chain(bytes, at, outs, run, i - 1);
        assert(goes_on(at, i - 1));
        let c = at[i - 1];
        let w = c.window(bytes);
        let left = at[0].start + run - c.start;
        let s = w.take(left);
        assert(s.len() > 0) by {
            if s.len() == 0 {
                assert(d.skip(i - 1).len() == 0);
            }
        }
        let step = scalar::int32(s);
        varint::lemma_varint_prefix(s, w.skip(left));
        assert(s + w.skip(left) =~= w);
        let rest = s.skip(step.used as int);
        cursor::lemma_window_advance(c, bytes, step.used);
        assert(at[i].window(bytes).take(left - step.used) =~= rest);
        assert(d.skip(i - 1)[0] == d[i - 1]);
        let tail = repeated::int32s(rest)->Ok_0;
        assert((seq![step.out->Ok_0] + tail).skip(1) =~= tail);
        assert(d.skip(i - 1).skip(1) =~= d.skip(i));
        assert(d.skip(i - 1)[0] == step.out->Ok_0);
    }
}

/// The batch keeps what the vector holds, and stops within the range: where less than
/// sixteen bytes are left, or the next varint takes more than five.
pub proof fn law_batch_stops(bytes: &[u8])
    ensures
        forall|v: &mut Vec<i32>, start: usize, end: usize, pos: usize|
            {
                &&& start <= end <= bytes@.len()
                &&& #[trigger] call_ensures(batch_decode_varint32, (bytes, start, end, v), pos)
            } ==> {
                &&& start <= pos <= end
                &&& v@.len() <= final(v)@.len()
                &&& forall|i: int| 0 <= i < v@.len() ==> #[trigger] final(v)@[i] == v@[i]
                &&& end - pos < 16 || forall|j: int|
                    pos <= j < pos + 5 ==> #[trigger] bytes@[j] >= 128
            },
{
    assert forall|v: &mut Vec<i32>, start: usize, end: usize, pos: usize|
        {
            &&& start <= end <= bytes@.len()
            &&& #[trigger] call_ensures(batch_decode_varint32, (bytes, start, end, v), pos)
        } implies {
        &&& start <= pos <= end
        &&& v@.len() <= final(v)@.len()
        &&& forall|i: int| 0 <= i < v@.len() ==> #[trigger] final(v)@[i] == v@[i]
        &&& end - pos < 16 || forall|j: int|
            pos <= j < pos + 5 ==> #[trigger] bytes@[j] >= 128
    } by {
        let s = bytes@.subrange(start as int, end as int);
        lemma_batch_stops(s);
        if end - pos >= 16 {
            assert forall|j: int| pos <= j < pos + 5 implies #[trigger] bytes@[j] >= 128 by {
                assert(s[j - start] >= 128);
            }
        }
    }
}

/// What the batch appends is what as many calls of `read_int32` give, the first from
/// `start` on, each other one from where the one before it ended; and the batch stops
/// where the last of them does.
pub proof fn law_batch_is_read_in_order(bytes: &[u8])
    ensures
        forall|
            v: &mut Vec<i32>,
            start: usize,
            end: usize,
            pos: usize,
            at: Seq<Cursor>,
            outs: Seq<Result<i32>>,
        |
            {
                &&& start <= end <= bytes@.len()
                &&& #[trigger] call_ensures(batch_decode_varint32, (bytes, start, end, v), pos)
                &&& #[trigger] route(at, start as int, end as int)
                &&& at.len() == (#[trigger] outs.len()) + 1
                &&& v@.len() + outs.len() == final(v)@.len()
                &&& forall|i: int| #[trigger]
                    goes_on(at, i) ==> exists|o: &mut BytesReader|
                        o@ == at[i] && final(o)@ == at[i + 1] && #[trigger] call_ensures(
                            BytesReader::read_int32,
                            (o, bytes),
                            outs[i],
                        )
            } ==> {
                &&& at.last().start == pos
                &&& forall|i: int|
                    0 <= i < outs.len() ==> #[trigger] outs[i] == Ok::<i32, Error>(
                        final(v)@[v@.len() as int + i],
                    )
            },
{
    assert forall|
        v: &mut Vec<i32>,
        start: usize,
        end: usize,
        pos: usize,
        at: Seq<Cursor>,
        outs: Seq<Result<i32>>,
    |
        {
            &&& start <= end <= bytes@.len()
            &&& #[trigger] call_ensures(batch_decode_varint32, (bytes, start, end, v), pos)
            &&& #[trigger] route(at, start as int, end as int)
            &&& at.len() == (#[trigger] outs.len()) + 1
            &&& v@.len() + outs.len() == final(v)@.len()
            &&& forall|i: int| #[trigger]
                goes_on(at, i) ==> exists|o: &mut BytesReader|
                    o@ == at[i] && final(o)@ == at[i + 1] && #[trigger] call_ensures(
                        BytesReader::read_int32,
                        (o, bytes),
                        outs[i],
                    )
        } implies {
        &&& at.last().start == pos
        &&& forall|i: int|
            0 <= i < outs.len() ==> #[trigger] outs[i] == Ok::<i32, Error>(
                final(v)@[v@.len() as int + i],
            )
    } by {
        let c = at[0];
        let run = (pos - start) as nat;
        let w = c.window(bytes@);
        assert(w.take(run as int) =~= bytes@.subrange(start as int, pos as int));
        assert forall|i: int| #[trigger] goes_on(at, i) implies scalar::int32(
            at[i].window(bytes@),
        ).done(at[i], at[i + 1], outs[i]) by {}
        lemma_int32_run_chain(bytes@, at, outs, run, outs.len() as int);
        let d = repeated::int32s(w.take(run as int))->Ok_0;
        assert(d.skip(outs.len() as int) =~= Seq::empty());
        let left = c.start + run - at.last().start;
        let rest = at.last().window(bytes@).take(left);
        if rest.len() > 0 {
            assert(repeated::int32s(rest)->Ok_0.len() > 0);
        }
        assert(rest.len() == left);
    }
}

} // verus!

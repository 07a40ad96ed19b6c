//! Map entries: a key and a value in one length-delimited field.
use vstd::prelude::*;

use crate::cursor::Cursor;
use crate::error::{Error, Result};

verus! {

/// What one round of reading a map entry met.
pub enum Part<K, V> {
    /// A key, or a failed attempt to read it.
    Key(Result<K>),
    /// A value, or a failed attempt to read it.
    Value(Result<V>),
    /// A field that is neither, by its number.
    Other(u8),
}

impl<K, V> Part<K, V> {
    /// The error that ends the reading here, if there is one.
    pub open spec fn error(self) -> Option<Error> {
        match self {
            Part::Key(Ok(_)) => None,
            Part::Key(Err(error)) => Some(error),
            Part::Value(Ok(_)) => None,
            Part::Value(Err(error)) => Some(error),
            Part::Other(number) => Some(Error::MapField(number)),
        }
    }

    /// Whether the part goes with field number `number`.
    pub open spec fn numbered(self, number: u8) -> bool {
        match self {
            Part::Key(_) => number == 1,
            Part::Value(_) => number == 2,
            Part::Other(other) => number == other && number != 1 && number != 2,
        }
    }
}

/// The last key among `parts`, or `default` if there is none.
pub open spec fn last_key<K, V>(parts: Seq<Part<K, V>>, default: K) -> K
    decreases parts.len(),
{
    if parts.len() == 0 {
        default
    } else {
        match parts.last() {
            Part::Key(Ok(key)) => key,
            _ => last_key(parts.drop_last(), default),
        }
    }
}

/// The last value among `parts`, or `default` if there is none.
pub open spec fn last_value<K, V>(parts: Seq<Part<K, V>>, default: V) -> V
    decreases parts.len(),
{
    if parts.len() == 0 {
        default
    } else {
        match parts.last() {
            Part::Value(Ok(value)) => value,
            _ => last_value(parts.drop_last(), default),
        }
    }
}

/// The reading of a map entry: the cursor before each round and behind the last,
/// and what each round met.
pub struct EntryTrace<K, V> {
    pub at: Seq<Cursor>,
    pub parts: Seq<Part<K, V>>,
}

impl<K, V> EntryTrace<K, V> {
    /// Whether there was a round number `i`.
    pub open spec fn has(self, i: int) -> bool {
        0 <= i < self.parts.len()
    }

    /// One more round, which met `part` and left the cursor at `to`.
    pub open spec fn push(self, part: Part<K, V>, to: Cursor) -> EntryTrace<K, V> {
        EntryTrace { at: self.at.push(to), parts: self.parts.push(part) }
    }

    /// One more round leaves the earlier ones as they are.
    pub proof fn lemma_push(self, part: Part<K, V>, to: Cursor)
        requires
            self.at.len() == self.parts.len() + 1,
        ensures
            self.push(part, to).parts.drop_last() == self.parts,
            forall|i: int| #[trigger]
                self.push(part, to).has(i) ==> {
                    let next = self.push(part, to);
                    &&& next.at[i] == self.at[i]
                    &&& self.has(i) ==> next.at[i + 1] == self.at[i + 1] && next.parts[i]
                        == self.parts[i]
                    &&& !self.has(i) ==> next.at[i + 1] == to && next.parts[i] == part
                },
    {
        assert(self.push(part, to).parts.drop_last() =~= self.parts);
    }

    /// Whether the rounds took `body` apart, each led by a tag byte, for as long
    /// as something was left and nothing failed.
    pub open spec fn covers(self, body: Cursor, bytes: Seq<u8>) -> bool {
        &&& self.at.len() == self.parts.len() + 1
        &&& self.at[0] == body
        &&& forall|i: int| #[trigger]
            self.has(i) ==> {
                &&& self.at[i].start < self.at[i].end <= bytes.len()
                &&& self.parts[i].numbered((self.at[i].window(bytes)[0] / 8) as u8)
                &&& i < self.parts.len() - 1 ==> self.parts[i].error() is None
                &&& self.parts[i] is Other ==> self.at[i + 1] == self.at[i].advance(1)
            }
    }

    /// Whether the rounds add up to `out`: the last key and the last value, each
    /// with a default, or what ended the last round early.
    pub open spec fn gives(self, key: K, value: V, out: Result<(K, V)>) -> bool {
        match out {
            Ok(pair) => {
                &&& self.at.last().start == self.at.last().end
                &&& self.parts.len() > 0 ==> self.parts.last().error() is None
                &&& pair.0 == last_key(self.parts, key)
                &&& pair.1 == last_value(self.parts, value)
            },
            Err(error) => self.parts.len() > 0 && self.parts.last().error() == Some(error),
        }
    }
}

} // verus!

//! Protocol Buffers format.
//!
//! Numbers of the statistics feed are base-128 varints: each byte carries
//! seven bits of the number, lowest group first, and its high bit says
//! whether another byte follows.

use vstd::prelude::*;

verus! {

/// A byte buffer that is read from the front.
#[derive(Debug)]
pub struct Cursor {
    data: Vec<u8>,
    position: usize,
}

impl View for Cursor {
    type V = Seq<u8>;

    /// The bytes that were not read yet.
    closed spec fn view(&self) -> Seq<u8> {
        self.data@.skip(self.position as int)
    }
}

impl Cursor {
    /// The position never passes the end of the bytes.
    #[verifier::type_invariant]
    spec fn in_bounds(self) -> bool {
        self.position <= self.data@.len()
    }

    /// Creates a cursor at the front of the bytes.
    pub fn new(data: Vec<u8>) -> (cursor: Self)
        ensures
            cursor@ == data@,
    {
        Cursor { data, position: 0 }
    }

    /// Gets the number of bytes that are left to read.
    pub fn remaining(&self) -> (count: usize)
        ensures
            count == self@.len(),
    {
        proof {
            use_type_invariant(self);
        }
        self.data.len() - self.position
    }

    /// Reads the next byte, unless the bytes are used up.
    pub fn read_byte(&mut self) -> (byte: Option<u8>)
        ensures
            old(self)@.len() > 0 ==> byte == Some(old(self)@[0]) && final(self)@ == old(self)@.skip(
                1,
            ),
            old(self)@.len() == 0 ==> byte == None::<u8> && final(self)@ == old(self)@,
    {
        proof {
            use_type_invariant(&*self);
        }
        if self.position < self.data.len() {
            let byte = self.data[self.position];
            assert(self.data@.skip(self.position as int).skip(1) == self.data@.skip(
                self.position + 1,
            ));
            self.position = self.position + 1;
            Some(byte)
        } else {
            None
        }
    }
}

/// The length of the varint at the front of the bytes: up to and including
/// the first byte whose high bit is clear. `None` if every byte has it set.
pub open spec fn uvarint_length(bytes: Seq<u8>) -> Option<nat>
    decreases bytes.len(),
{
    if bytes.len() == 0 {
        None
    } else if bytes[0] & 0x80 == 0 {
        Some(1)
    } else {
        match uvarint_length(bytes.skip(1)) {
            Some(length) => Some(length + 1),
            None => None,
        }
    }
}

/// What the byte at `index` of a varint adds to its value: its low seven
/// bits, seven bits higher for each byte before it. From the sixth byte on
/// the bits lie above the thirty-two of the value and are dropped, as are
/// the highest bits of the fifth.
pub open spec fn uvarint_group(byte: u8, index: nat) -> u32 {
    if index < 5 {
        ((byte & 0x7F) as u32) << ((7 * index) as u32)
    } else {
        0
    }
}

/// The value of a varint: the groups of all its bytes put together.
pub open spec fn uvarint_value(bytes: Seq<u8>) -> u32
    decreases bytes.len(),
{
    if bytes.len() == 0 {
        0
    } else {
        uvarint_value(bytes.drop_last()) | uvarint_group(bytes.last(), (bytes.len() - 1) as nat)
    }
}

/// The varint at the front of the bytes and the bytes after it.
pub open spec fn uvarint_at(bytes: Seq<u8>) -> Option<(u32, Seq<u8>)> {
    match uvarint_length(bytes) {
        Some(length) => Some((uvarint_value(bytes.take(length as int)), bytes.skip(length as int))),
        None => None,
    }
}

/// The varint of the bytes begins after `count` bytes that announce a
/// successor.
proof fn lemma_uvarint_length_after(bytes: Seq<u8>, count: nat)
    requires
        count <= bytes.len(),
        forall|i: int| 0 <= i < count ==> #[trigger] bytes[i] & 0x80 != 0,
    ensures
        uvarint_length(bytes) == match uvarint_length(bytes.skip(count as int)) {
            Some(length) => Some(length + count),
            None => None,
        },
    decreases count,
{
    if count == 0 {
        assert(bytes.skip(0) == bytes);
    } else {
        assert(bytes[0] & 0x80 != 0);
        assert forall|i: int| 0 <= i < count - 1 implies #[trigger] bytes.skip(1)[i] & 0x80 != 0 by {
            assert(bytes.skip(1)[i] == bytes[i + 1]);
        }
        lemma_uvarint_length_after(bytes.skip(1), (count - 1) as nat);
        assert(bytes.skip(1).skip(count - 1) == bytes.skip(count as int));
    }
}

/// Reads next UVarint.
///
/// Returns `None`, with all bytes read, if the bytes end before the varint
/// does.
pub fn read_uvarint(input: &mut Cursor) -> (value: Option<u32>)
    ensures
        match uvarint_at(old(input)@) {
            Some((number, rest)) => value == Some(number) && final(input)@ == rest,
            None => value == None::<u32> && final(input)@.len() == 0,
        },
{
    let mut value: u32 = 0;
    let mut shift: u32 = 0;
    let ghost bytes = input@;
    let ghost count: nat = 0;
    proof {
        assert(bytes.skip(0) == bytes);
        assert(bytes.take(0) == Seq::<u8>::empty());
    }
    loop
        invariant
            bytes == old(input)@,
            count <= bytes.len(),
            input@ == bytes.skip(count as int),
            forall|i: int| 0 <= i < count ==> #[trigger] bytes[i] & 0x80 != 0,
            value == uvarint_value(bytes.take(count as int)),
            count < 5 ==> shift == 7 * count,
            count >= 5 ==> shift == 35,
        decreases bytes.len() - count,
    {
        proof {
            lemma_uvarint_length_after(bytes, count);
        }
        match input.read_byte() {
            None => {
                return None;
            },
            Some(byte) => {
                proof {
                    assert(byte == bytes[count as int]);
                    assert(bytes.take(count as int + 1).drop_last() == bytes.take(count as int));
                    assert(bytes.take(count as int + 1).last() == byte);
                    assert(bytes.skip(count as int).skip(1) == bytes.skip(count as int + 1));
                }
                if shift < 32 {
                    value = value | (((byte & 0x7F) as u32) << shift);
                    shift = shift + 7;
                } else {
                    assert(value | 0 == value) by (bit_vector);
                }
                if byte & 0x80 == 0 {
                    proof {
                        assert(bytes.skip(count as int)[0] == byte);
                        assert(uvarint_length(bytes.skip(count as int)) == Some(1nat));
                        assert(uvarint_length(bytes) == Some(count + 1));
                        assert(value == uvarint_value(bytes.take(count as int + 1)));
                    }
                    return Some(value);
                }
                proof {
                    count = count + 1;
                }
            },
        }
    }
}

} // verus!

//! Where the bytes come from.

use vstd::prelude::*;

verus! {

/// A source of bytes.
///
/// A read puts bytes at the start of `buf` and returns how many it put there;
/// zero means that the input has ended.
///
/// Of a reader whose input is known beforehand, `script` gives the bytes that
/// are still to come: such a reader does not fail, hands out those bytes in
/// their order, and reports the end of the input when there are none left,
/// not before. Of any other reader nothing is known, and `script` is `None`.
pub trait Reader {
    /// What a failed read reports.
    type Error;

    /// The bytes that the reader will still hand out, where they are known.
    open spec fn script(&self) -> Option<Seq<u8>> {
        None
    }

    /// The number of bytes that the next read hands out into a buffer of
    /// `room` bytes, where it is known.
    open spec fn serving(&self, room: nat) -> Option<nat> {
        None
    }

    /// Reads some bytes into the start of `buf`.
    fn read(&mut self, buf: &mut [u8]) -> (res: Result<usize, Self::Error>)
        ensures
            final(buf)@.len() == old(buf)@.len(),
            res matches Ok(n) ==> n <= old(buf)@.len(),
            old(self).serving(old(buf)@.len()) matches Some(k) ==> (res matches Ok(n) && n == k),
            old(self).script() matches Some(rest) ==> {
                &&& res matches Ok(n)
                &&& n <= rest.len()
                &&& final(buf)@.take(n as int) == rest.take(n as int)
                &&& final(self).script() == Some(rest.skip(n as int))
                &&& n == 0 ==> rest.len() == 0 || old(buf)@.len() == 0
            },
            old(self).script() is None ==> final(self).script() is None,
    ;
}

/// A reader over bytes held in memory, which hands them out in order, in
/// pieces of a bounded length.
pub struct SliceReader<'a> {
    data: &'a [u8],
    pos: usize,
    piece: usize,
}

impl<'a> SliceReader<'a> {
    /// The bytes that are still to be read.
    pub closed spec fn remaining(&self) -> Seq<u8> {
        self.data@.skip(self.pos as int)
    }

    /// The largest number of bytes that one read hands out.
    pub closed spec fn piece(&self) -> nat {
        self.piece as nat
    }

    #[verifier::type_invariant]
    spec fn within(&self) -> bool {
        self.pos <= self.data@.len() && self.piece > 0
    }

    /// A reader over `data` whose reads fill as much of the buffer as the
    /// remaining bytes allow.
    pub fn new(data: &'a [u8]) -> (reader: SliceReader<'a>)
        ensures
            reader.remaining() == data@,
            reader.piece() == usize::MAX,
    {
        SliceReader { data, pos: 0, piece: usize::MAX }
    }

    /// A reader over `data` whose reads hand out at most `piece` bytes each.
    pub fn in_pieces(data: &'a [u8], piece: usize) -> (reader: SliceReader<'a>)
        requires
            piece > 0,
        ensures
            reader.remaining() == data@,
            reader.piece() == piece,
    {
        SliceReader { data, pos: 0, piece }
    }

    /// The number of bytes that a read into a buffer of `room` bytes hands out.
    pub open spec fn portion(&self, room: nat) -> nat {
        let a = if room < self.piece() {
            room
        } else {
            self.piece()
        };
        if a < self.remaining().len() {
            a
        } else {
            self.remaining().len()
        }
    }
}

impl<'a> Reader for SliceReader<'a> {
    type Error = ();

    /// All that remains of the bytes in memory.
    open spec fn script(&self) -> Option<Seq<u8>> {
        Some(self.remaining())
    }

    /// As many bytes as the buffer, the piece length and the remaining bytes
    /// allow.
    open spec fn serving(&self, room: nat) -> Option<nat> {
        Some(self.portion(room))
    }

    /// Copies the next bytes to the start of `buf`, as many as `buf`, the
    /// piece length and the remaining bytes allow. Never fails.
    fn read(&mut self, buf: &mut [u8]) -> (res: Result<usize, ()>)
        ensures
            res == Ok::<usize, ()>(old(self).portion(old(buf)@.len()) as usize),
            final(self).piece() == old(self).piece(),
            final(self).remaining() == old(self).remaining().skip(
                old(self).portion(old(buf)@.len()) as int,
            ),
            final(buf)@ == old(self).remaining().take(old(self).portion(old(buf)@.len()) as int)
                + old(buf)@.skip(old(self).portion(old(buf)@.len()) as int),
    {
        let mut n: usize = 0;
        proof {
            use_type_invariant(&*self);
        }
        let ghost before = self.data@.skip(self.pos as int);
        let start: usize = self.pos;
        while n < buf.len() && n < self.piece && self.pos < self.data.len()
            invariant
                n <= buf@.len(),
                n <= self.piece,
                buf@.len() == old(buf)@.len(),
                self.pos == start + n,
                self.pos <= self.data@.len(),
                self.data == old(self).data,
                self.piece == old(self).piece,
                start == old(self).pos,
                before == self.data@.skip(start as int),
                buf@ == before.take(n as int) + old(buf)@.skip(n as int),
            decreases buf@.len() - n,
        {
            buf[n] = self.data[self.pos];
            self.pos = self.pos + 1;
            n = n + 1;
        }
        proof {
            assert(self.data@.skip(self.pos as int) =~= before.skip(n as int));
        }
        Ok(n)
    }
}

} // verus!

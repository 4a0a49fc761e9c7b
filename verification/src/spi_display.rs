//! The pieces of the SPI display interface that decide something: the
//! drawing window of a frame, and the buffering of a byte stream into
//! bus writes of a fixed size.

use vstd::prelude::*;
use crate::color::{be_bytes, be_pair};

verus! {

/// A display interface that drives an SPI bus directly, with its
/// data/command and chip-select pins.
pub struct DirectInterface<SPI, DC, CS> {
    pub spi: SPI,
    pub dc: DC,
    pub cs: CS,
}

impl<SPI, DC, CS> DirectInterface<SPI, DC, CS> {
    pub fn new(spi: SPI, dc: DC, cs: CS) -> (di: Self)
        ensures
            di.spi == spi,
            di.dc == dc,
            di.cs == cs,
    {
        Self { spi, dc, cs }
    }
}

/// The last column and last row of a frame buffer of the given
/// (width, height): the window that a full frame covers.
pub fn frame_window(size: (u16, u16)) -> (last: (u16, u16))
    requires
        size.0 > 0,
        size.1 > 0,
    ensures
        last.0 == size.0 - 1,
        last.1 == size.1 - 1,
{
    (size.0 - 1, size.1 - 1)
}

/// Bytes waiting to be written to the bus, at most `CAP` of them.
pub struct ChunkBuffer<const CAP: usize> {
    buf: [u8; CAP],
    len: usize,
}

/// What feeding `input` byte by byte to a buffer of capacity `cap` that
/// holds `pending` gives: the full chunks written out, in order, and the
/// bytes left in the buffer.
pub open spec fn feed(pending: Seq<u8>, input: Seq<u8>, cap: nat) -> (Seq<Seq<u8>>, Seq<u8>)
    decreases input.len(),
{
    if input.len() == 0 {
        (Seq::empty(), pending)
    } else {
        let p = pending.push(input[0]);
        if p.len() == cap {
            let rest = feed(Seq::empty(), input.drop_first(), cap);
            (seq![p] + rest.0, rest.1)
        } else {
            feed(p, input.drop_first(), cap)
        }
    }
}

/// Feeding bytes through the buffer loses, repeats and reorders none of
/// them: the chunks written out, followed by what is left in the buffer,
/// are the bytes held before followed by the bytes fed; every chunk written
/// is exactly `cap` bytes, and fewer than `cap` are left.
pub proof fn lemma_feed_keeps_every_byte(pending: Seq<u8>, input: Seq<u8>, cap: nat)
    requires
        0 < cap,
        pending.len() < cap,
    ensures
        feed(pending, input, cap).0.flatten() + feed(pending, input, cap).1 == pending + input,
        forall|i: int|
            0 <= i < feed(pending, input, cap).0.len() ==> (#[trigger] feed(
                pending,
                input,
                cap,
            ).0[i]).len() == cap,
        feed(pending, input, cap).1.len() < cap,
    decreases input.len(),
{
    if input.len() == 0 {
        assert(pending + input =~= pending);
        assert(Seq::<Seq<u8>>::empty().flatten() + pending =~= pending);
    } else {
        let p = pending.push(input[0]);
        let tail = input.drop_first();
        assert(pending + input =~= p + tail);
        if p.len() == cap {
            lemma_feed_keeps_every_byte(Seq::empty(), tail, cap);
            let rest = feed(Seq::empty(), tail, cap);
            let chunks = seq![p] + rest.0;
            assert(chunks.first() == p);
            assert(chunks.drop_first() =~= rest.0);
            assert(chunks.flatten() == p + rest.0.flatten());
            assert(Seq::<u8>::empty() + tail =~= tail);
            assert(chunks.flatten() + rest.1 =~= p + (rest.0.flatten() + rest.1));
            assert forall|i: int| 0 <= i < chunks.len() implies (#[trigger] chunks[i]).len() == cap by {
                if i > 0 {
                    assert(chunks[i] == rest.0[i - 1]);
                }
            }
        } else {
            lemma_feed_keeps_every_byte(p, tail, cap);
        }
    }
}

/// Feeding `first` and then `rest` is feeding `first + rest`: the chunks
/// of both runs, in order, and what the second run leaves.
pub proof fn lemma_feed_concat(pending: Seq<u8>, first: Seq<u8>, rest: Seq<u8>, cap: nat)
    ensures
        feed(pending, first + rest, cap) == (
            feed(pending, first, cap).0 + feed(feed(pending, first, cap).1, rest, cap).0,
            feed(feed(pending, first, cap).1, rest, cap).1,
        ),
    decreases first.len(),
{
    if first.len() == 0 {
        assert(first + rest =~= rest);
        assert(Seq::<Seq<u8>>::empty() + feed(pending, rest, cap).0 =~= feed(pending, rest, cap).0);
    } else {
        let p = pending.push(first[0]);
        assert((first + rest)[0] == first[0]);
        assert((first + rest).drop_first() =~= first.drop_first() + rest);
        if p.len() == cap {
            lemma_feed_concat(Seq::empty(), first.drop_first(), rest, cap);
            let a = feed(Seq::<u8>::empty(), first.drop_first(), cap);
            let b = feed(a.1, rest, cap);
            assert(seq![p] + (a.0 + b.0) =~= (seq![p] + a.0) + b.0);
        } else {
            lemma_feed_concat(p, first.drop_first(), rest, cap);
        }
    }
}

impl<const CAP: usize> ChunkBuffer<CAP> {
    /// The bytes held, oldest first.
    pub closed spec fn pending(&self) -> Seq<u8> {
        self.buf@.take(self.len as int)
    }

    /// The buffer never holds more than `CAP` bytes.
    #[verifier::type_invariant]
    spec fn holds_at_most_cap(self) -> bool {
        self.len <= CAP
    }

    /// An empty buffer.
    pub fn new() -> (b: Self)
        ensures
            b.pending() == Seq::<u8>::empty(),
    {
        Self { buf: [0u8; CAP], len: 0 }
    }

    /// Number of bytes held.
    pub fn len(&self) -> (n: usize)
        ensures
            n == self.pending().len(),
            n <= CAP,
    {
        proof {
            use_type_invariant(self);
        }
        self.len
    }

    /// True when no byte is held.
    pub fn is_empty(&self) -> (e: bool)
        ensures
            e == (self.pending().len() == 0),
            self.pending().len() <= CAP,
    {
        proof {
            use_type_invariant(self);
        }
        self.len == 0
    }

    /// True when the buffer holds `CAP` bytes and must be written out.
    pub fn is_full(&self) -> (f: bool)
        ensures
            f == (self.pending().len() == CAP),
            self.pending().len() <= CAP,
    {
        proof {
            use_type_invariant(self);
        }
        self.len == CAP
    }

    /// Room left, in bytes.
    pub fn room(&self) -> (n: usize)
        ensures
            n == CAP - self.pending().len(),
            self.pending().len() <= CAP,
    {
        proof {
            use_type_invariant(self);
        }
        CAP - self.len
    }

    /// Add a byte; the result says whether the buffer is now full.
    pub fn push(&mut self, byte: u8) -> (full: bool)
        requires
            old(self).pending().len() < CAP,
        ensures
            final(self).pending() == old(self).pending().push(byte),
            full == (final(self).pending().len() == CAP),
            full ==> feed(old(self).pending(), seq![byte], CAP as nat) == (
                seq![final(self).pending()],
                Seq::<u8>::empty(),
            ),
            !full ==> feed(old(self).pending(), seq![byte], CAP as nat) == (
                Seq::<Seq<u8>>::empty(),
                final(self).pending(),
            ),
    {
        proof {
            use_type_invariant(&*self);
        }
        let ghost before = self.pending();
        self.buf[self.len] = byte;
        self.len = self.len + 1;
        assert(self.pending() =~= before.push(byte));
        proof {
            let one = seq![byte];
            assert(one[0] == byte);
            assert(one.drop_first().len() == 0);
            assert(feed(Seq::empty(), one.drop_first(), CAP as nat) == (
                Seq::<Seq<u8>>::empty(),
                Seq::<u8>::empty(),
            ));
            assert(feed(before.push(byte), one.drop_first(), CAP as nat) == (
                Seq::<Seq<u8>>::empty(),
                before.push(byte),
            ));
            if self.len == CAP {
                assert(seq![before.push(byte)] + Seq::<Seq<u8>>::empty() =~= seq![before.push(byte)]);
            }
        }
        self.len == CAP
    }

    /// Add a 16-bit word, most significant byte first; the result says
    /// whether the buffer is now full.
    pub fn push_word_be(&mut self, word: u16) -> (full: bool)
        requires
            old(self).pending().len() + 2 <= CAP,
        ensures
            final(self).pending() == old(self).pending() + be_pair(word as int)@,
            full == (final(self).pending().len() == CAP),
            full ==> feed(old(self).pending(), be_pair(word as int)@, CAP as nat) == (
                seq![final(self).pending()],
                Seq::<u8>::empty(),
            ),
            !full ==> feed(old(self).pending(), be_pair(word as int)@, CAP as nat) == (
                Seq::<Seq<u8>>::empty(),
                final(self).pending(),
            ),
    {
        proof {
            use_type_invariant(&*self);
        }
        let ghost before = self.pending();
        let pair = be_bytes(word);
        self.buf[self.len] = pair[0];
        self.buf[self.len + 1] = pair[1];
        self.len = self.len + 2;
        assert(self.pending() =~= before + be_pair(word as int)@);
        proof {
            let two = be_pair(word as int)@;
            let p1 = before.push(two[0]);
            let p2 = p1.push(two[1]);
            assert(two.len() == 2);
            assert(p2 =~= self.pending());
            assert(two.drop_first().drop_first().len() == 0);
            assert(two.drop_first()[0] == two[1]);
            assert(feed(Seq::empty(), two.drop_first().drop_first(), CAP as nat) == (
                Seq::<Seq<u8>>::empty(),
                Seq::<u8>::empty(),
            ));
            assert(feed(p2, two.drop_first().drop_first(), CAP as nat) == (
                Seq::<Seq<u8>>::empty(),
                p2,
            ));
            assert(feed(p1, two.drop_first(), CAP as nat) == feed(
                before,
                two,
                CAP as nat,
            ));
            if self.len == CAP {
                assert(seq![p2] + Seq::<Seq<u8>>::empty() =~= seq![p2]);
            }
        }
        self.len == CAP
    }

    /// The bytes held, to be written to the bus.
    pub fn bytes(&self) -> (b: &[u8])
        ensures
            b@ == self.pending(),
    {
        proof {
            use_type_invariant(self);
        }
        let (head, _) = self.buf.as_slice().split_at(self.len);
        head
    }

    /// Forget the bytes held, once they have been written.
    pub fn clear(&mut self)
        ensures
            final(self).pending() == Seq::<u8>::empty(),
    {
        self.len = 0;
    }
}

} // verus!

//! The raw byte source that a decoder reads from.
use vstd::prelude::*;

verus! {

/// A failure reported by the transport in place of a byte.
#[derive(Clone, Copy, Debug, PartialEq, Eq, Structural)]
pub struct TransportError {
    /// A transport-defined code describing the failure.
    pub code: u32,
}

/// One element of a raw source: a byte, or a transport failure.
pub type Item = Result<u8, TransportError>;

/// Source elements received so far, a read position, and whether more may come.
///
/// Elements before the position have been consumed; `next` hands out the element at
/// the position and moves past it. While the stream is open, its owner feeds it one
/// element at a time with `push`, and `close` marks the end of the source. Elements
/// that have all been consumed are dropped on the next `push`, so a stream fed one
/// element at a time holds only what is still unread.
pub struct ByteStream {
    items: Vec<Item>,
    pos: usize,
    open: bool,
}

impl ByteStream {
    /// Every element of the source, consumed or not.
    pub closed spec fn items(&self) -> Seq<Item> {
        self.items@
    }

    /// The number of elements consumed so far.
    pub closed spec fn pos(&self) -> nat {
        self.pos as nat
    }

    /// Whether more elements may still be pushed.
    pub closed spec fn is_open(&self) -> bool {
        self.open
    }

    pub open spec fn wf(&self) -> bool {
        self.pos() <= self.items().len()
    }

    /// The elements not yet consumed.
    pub open spec fn rest(&self) -> Seq<Item> {
        self.items().skip(self.pos() as int)
    }

    /// A complete stream over the given elements, positioned at the first one.
    pub fn new(items: Vec<Item>) -> (r: ByteStream)
        ensures
            r.wf(),
            r.items() == items@,
            r.pos() == 0,
            !r.is_open(),
    {
        ByteStream { items, pos: 0, open: false }
    }

    /// An empty stream that is still open, to be fed with `push`.
    pub fn open() -> (r: ByteStream)
        ensures
            r.wf(),
            r.items() == Seq::<Item>::empty(),
            r.pos() == 0,
            r.is_open(),
    {
        ByteStream { items: Vec::new(), pos: 0, open: true }
    }

    /// Append an element that the source delivered. What has all been consumed is
    /// dropped first.
    pub fn push(&mut self, item: Item)
        requires
            old(self).wf(),
            old(self).is_open(),
        ensures
            final(self).wf(),
            final(self).is_open(),
            final(self).rest() == old(self).rest().push(item),
            old(self).pos() < old(self).items().len() ==> final(self).items() == old(self).items().push(item)
                && final(self).pos() == old(self).pos(),
            old(self).pos() == old(self).items().len() ==> final(self).items() == seq![item]
                && final(self).pos() == 0,
    {
        if self.pos == self.items.len() {
            self.items.clear();
            self.pos = 0;
        }
        self.items.push(item);
        proof {
            assert(self.rest() =~= old(self).rest().push(item));
        }
    }

    /// Mark the end of the source: no element follows those pushed so far.
    pub fn close(&mut self)
        ensures
            final(self).items() == old(self).items(),
            final(self).pos() == old(self).pos(),
            !final(self).is_open(),
    {
        self.open = false;
    }

    /// Whether more elements may still be pushed.
    pub fn accepts_more(&self) -> (r: bool)
        ensures
            r == self.is_open(),
    {
        self.open
    }

    pub(crate) fn position(&self) -> (r: usize)
        ensures
            r as nat == self.pos(),
    {
        self.pos
    }

    /// Move the read position back to `pos`, undoing the reads since then.
    pub(crate) fn rewind(&mut self, pos: usize)
        requires
            pos <= old(self).items().len(),
            old(self).wf(),
        ensures
            final(self).wf(),
            final(self).items() == old(self).items(),
            final(self).is_open() == old(self).is_open(),
            final(self).pos() == pos,
    {
        self.pos = pos;
    }

    /// A stream over the given bytes, none of which fails.
    pub fn from_bytes(bytes: &[u8]) -> (r: ByteStream)
        ensures
            r.wf(),
            r.pos() == 0,
            !r.is_open(),
            r.items() == bytes@.map_values(|b: u8| Ok::<u8, TransportError>(b)),
    {
        let mut items: Vec<Item> = Vec::new();
        let mut i: usize = 0;
        while i < bytes.len()
            invariant
                i <= bytes@.len(),
                items@ == bytes@.subrange(0, i as int).map_values(|b: u8| Ok::<u8, TransportError>(b)),
            decreases bytes@.len() - i,
        {
            items.push(Ok(bytes[i]));
            i = i + 1;
            assert(items@ =~= bytes@.subrange(0, i as int).map_values(|b: u8| Ok::<u8, TransportError>(b)));
        }
        assert(bytes@.subrange(0, i as int) =~= bytes@);
        ByteStream { items, pos: 0, open: false }
    }

    /// The next unconsumed element, or `None` once every element has been consumed.
    pub fn next(&mut self) -> (r: Option<Item>)
        requires
            old(self).wf(),
        ensures
            final(self).wf(),
            final(self).items() == old(self).items(),
            final(self).is_open() == old(self).is_open(),
            old(self).pos() < old(self).items().len() ==> r == Some(old(self).items()[old(self).pos() as int])
                && final(self).pos() == old(self).pos() + 1,
            old(self).pos() >= old(self).items().len() ==> r is None && final(self).pos() == old(self).pos(),
    {
        if self.pos < self.items.len() {
            let item = self.items[self.pos];
            self.pos = self.pos + 1;
            Some(item)
        } else {
            None
        }
    }
}

} // verus!

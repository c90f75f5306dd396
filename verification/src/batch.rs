//! Coalescing of a stream of items into batches.
//!
//! A batched stream hands on the items of an inner stream, and marks the
//! end of a batch whenever the inner stream has nothing ready or the batch
//! has reached its bound. What is decided here is what to emit; polling the
//! inner stream is the caller's part.

use vstd::prelude::*;

verus! {

/// One element of a batched stream: an item of the current batch, or the
/// marker that closes it.
#[derive(Debug)]
pub enum BatchItem<T> {
    InBatch(T),
    EndBatch,
}

/// What polling the inner stream gave.
#[derive(Debug)]
pub enum Polled<T> {
    /// The stream had an item ready.
    Item(T),
    /// The stream has ended.
    Finished,
    /// The stream has nothing ready yet.
    Pending,
}

/// What the batched stream gives to its consumer.
#[derive(Debug)]
pub enum Emit<T> {
    /// An element is ready.
    Ready(BatchItem<T>),
    /// The batched stream has ended.
    Done,
    /// Nothing is ready yet.
    Pending,
}

/// A stream together with the state of its batching: whether the stream has
/// ended, the bound on the size of a batch, and the size of the batch that
/// is open.
#[derive(Debug)]
#[must_use]
pub struct Batched<S> {
    stream: S,
    ended: bool,
    max: usize,
    current: usize,
}

/// The state of the batching, without the stream.
pub struct BatchState {
    pub ended: bool,
    pub max: usize,
    pub current: usize,
}

impl<S> View for Batched<S> {
    type V = BatchState;

    closed spec fn view(&self) -> BatchState {
        BatchState { ended: self.ended, max: self.max, current: self.current }
    }
}

impl BatchState {
    /// What is emitted without polling the inner stream, if anything: the
    /// end of the stream once the inner stream has ended, the end of the
    /// batch once the batch is full.
    pub open spec fn emits_unpolled(self) -> bool {
        self.ended || self.current >= self.max
    }

    /// The state after `polled` came from the inner stream.
    pub open spec fn after<T>(self, polled: Polled<T>) -> BatchState {
        match polled {
            Polled::Item(_) => BatchState { current: (self.current + 1) as usize, ..self },
            Polled::Finished => BatchState { ended: true, current: 0, ..self },
            Polled::Pending => BatchState { current: 0, ..self },
        }
    }

    /// What is emitted when `polled` came from the inner stream: the item
    /// as part of the batch; or, when the stream has ended or has nothing
    /// ready, the end of the open batch if it holds anything.
    pub open spec fn emits<T>(self, polled: Polled<T>) -> Emit<T> {
        match polled {
            Polled::Item(v) => Emit::Ready(BatchItem::InBatch(v)),
            Polled::Finished => if self.current == 0 {
                Emit::Done
            } else {
                Emit::Ready(BatchItem::EndBatch)
            },
            Polled::Pending => if self.current == 0 {
                Emit::Pending
            } else {
                Emit::Ready(BatchItem::EndBatch)
            },
        }
    }
}

/// A batch never outgrows its bound: as long as the inner stream is polled
/// only when nothing is emitted without it, the open batch holds at most
/// `max` items, and a batch that is closed for want of a ready item holds
/// at least one.
pub proof fn lemma_batch_bounded<T>(s: BatchState, polled: Polled<T>)
    requires
        s.current <= s.max,
        !s.emits_unpolled(),
    ensures
        s.after(polled).current <= s.after(polled).max,
        s.after(polled).max == s.max,
        s.emits(polled) == Emit::Ready(BatchItem::<T>::EndBatch) ==> 1 <= s.current <= s.max,
{
}

impl<S> Batched<S> {
    /// The inner stream.
    pub closed spec fn stream(&self) -> S {
        self.stream
    }

    /// Batches `stream`, with at most `max` items to a batch.
    pub fn new(stream: S, max: usize) -> (b: Batched<S>)
        ensures
            b@ == (BatchState { ended: false, max, current: 0 }),
            b.stream() == stream,
    {
        Batched { stream, max, ended: false, current: 0 }
    }

    /// The inner stream.
    pub fn inner(&self) -> (s: &S)
        ensures
            *s == self.stream(),
    {
        &self.stream
    }

    /// The inner stream, for changing it. The state of the batching stays.
    pub fn inner_mut(&mut self) -> (s: &mut S)
        ensures
            *s == old(self).stream(),
            final(self).stream() == *final(s),
            final(self)@ == old(self)@,
    {
        &mut self.stream
    }

    /// Gives the inner stream back.
    pub fn into_inner(self) -> (s: S)
        ensures
            s == self.stream(),
    {
        self.stream
    }

    /// Whether the inner stream has ended.
    pub fn is_terminated(&self) -> (b: bool)
        ensures
            b == self@.ended,
    {
        self.ended
    }

    /// The first half of a poll: what is to be emitted without polling the
    /// inner stream. `None` says that the inner stream has to be polled,
    /// and its answer handed to `polled`.
    pub fn unpolled<T>(&mut self) -> (r: Option<Emit<T>>)
        ensures
            final(self).stream() == old(self).stream(),
            r is Some == old(self)@.emits_unpolled(),
            old(self)@.ended ==> r == Some(Emit::<T>::Done) && final(self)@ == old(self)@,
            !old(self)@.ended && old(self)@.current >= old(self)@.max ==> r == Some(
                Emit::<T>::Ready(BatchItem::EndBatch),
            ) && final(self)@ == (BatchState { current: 0, ..old(self)@ }),
            r is None ==> final(self)@ == old(self)@,
    {
        if self.ended {
            Some(Emit::Done)
        } else if self.current >= self.max {
            self.current = 0;
            Some(Emit::Ready(BatchItem::EndBatch))
        } else {
            None
        }
    }

    /// The second half of a poll: what is to be emitted now that `polled`
    /// came from the inner stream.
    pub fn polled<T>(&mut self, polled: Polled<T>) -> (r: Emit<T>)
        requires
            !old(self)@.emits_unpolled(),
        ensures
            final(self).stream() == old(self).stream(),
            final(self)@ == old(self)@.after(polled),
            r == old(self)@.emits(polled),
    {
        match polled {
            Polled::Item(v) => {
                self.current = self.current + 1;
                Emit::Ready(BatchItem::InBatch(v))
            },
            Polled::Finished => {
                self.ended = true;
                if self.current == 0 {
                    Emit::Done
                } else {
                    self.current = 0;
                    Emit::Ready(BatchItem::EndBatch)
                }
            },
            Polled::Pending => {
                if self.current == 0 {
                    Emit::Pending
                } else {
                    self.current = 0;
                    Emit::Ready(BatchItem::EndBatch)
                }
            },
        }
    }

    /// One poll in one call, for a caller that has polled the inner stream
    /// beforehand: `polled` is looked at only when nothing is emitted
    /// without it, and is handed back untouched otherwise.
    pub fn poll_with<T>(&mut self, polled: Polled<T>) -> (r: (Emit<T>, Option<Polled<T>>))
        ensures
            final(self).stream() == old(self).stream(),
            old(self)@.ended ==> r == (Emit::<T>::Done, Some(polled)) && final(self)@ == old(
                self,
            )@,
            !old(self)@.ended && old(self)@.current >= old(self)@.max ==> r == (
                Emit::<T>::Ready(BatchItem::EndBatch),
                Some(polled),
            ) && final(self)@ == (BatchState { current: 0, ..old(self)@ }),
            !old(self)@.emits_unpolled() ==> r == (old(self)@.emits(polled), None::<Polled<T>>)
                && final(self)@ == old(self)@.after(polled),
    {
        match self.unpolled::<T>() {
            Some(e) => (e, Some(polled)),
            None => (self.polled(polled), None),
        }
    }
}

} // verus!

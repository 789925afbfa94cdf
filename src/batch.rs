use vstd::prelude::*;

use crate::merge::{is_min_head, MergeQueue};

verus! {

/// A merge session over batches of type `B`: it holds the current head batch
/// of each stream with its key, and hands the batches out smallest key first.
pub struct BatchMerger<B> {
    queue: MergeQueue,
    pending: Vec<Option<B>>,
}

impl<B> View for BatchMerger<B> {
    type V = Seq<Option<i64>>;

    /// The key of each stream's held batch, `None` where none is held.
    closed spec fn view(&self) -> Seq<Option<i64>> {
        self.queue@
    }
}

impl<B> BatchMerger<B> {
    /// A batch is held for a stream exactly when the stream has a key.
    pub closed spec fn wf(&self) -> bool {
        &&& self.pending@.len() == self.queue@.len()
        &&& forall|i: int|
            0 <= i < self.pending@.len() ==> ((#[trigger] self.pending@[i]) is Some
                <==> self.queue@[i] is Some)
    }

    /// A session for `n` streams, holding no batch.
    pub fn new(n: usize) -> (m: BatchMerger<B>)
        ensures
            m.wf(),
            m@ == Seq::new(n as nat, |i: int| None::<i64>),
    {
        let queue = MergeQueue::new(n);
        let mut pending: Vec<Option<B>> = Vec::with_capacity(n);
        let mut i: usize = 0;
        while i < n
            invariant
                i <= n,
                pending@.len() == i,
                forall|k: int| 0 <= k < i ==> (#[trigger] pending@[k]) is None,
            decreases n - i,
        {
            pending.push(None);
            i = i + 1;
        }
        BatchMerger { queue, pending }
    }

    /// The number of streams.
    pub fn num_streams(&self) -> (r: usize)
        requires
            self.wf(),
        ensures
            r == self@.len(),
    {
        self.queue.num_streams()
    }

    /// Whether a batch of `stream` is held.
    pub fn holds(&self, stream: usize) -> (r: bool)
        requires
            self.wf(),
            stream < self@.len(),
        ensures
            r == self@[stream as int] is Some,
    {
        self.pending[stream].is_some()
    }

    /// Takes `batch`, whose key is `key`, as the head of `stream`, which must
    /// hold none.
    pub fn offer(&mut self, stream: usize, key: i64, batch: B)
        requires
            old(self).wf(),
            stream < old(self)@.len(),
            old(self)@[stream as int] is None,
        ensures
            final(self).wf(),
            final(self)@ == old(self)@.update(stream as int, Some(key)),
    {
        self.queue.offer(stream, key);
        self.pending.remove(stream);
        self.pending.insert(stream, Some(batch));
    }

    /// Hands out the held batch with the smallest key, with its stream; equal
    /// keys go to the stream that comes first. `None` when no batch is held.
    pub fn pop(&mut self) -> (r: Option<(usize, B)>)
        requires
            old(self).wf(),
        ensures
            final(self).wf(),
            match r {
                None => {
                    &&& forall|i: int| 0 <= i < old(self)@.len() ==> (#[trigger] old(self)@[i]) is None
                    &&& final(self)@ == old(self)@
                },
                Some((s, _)) => {
                    &&& is_min_head(old(self)@, s as int)
                    &&& final(self)@ == old(self)@.update(s as int, None)
                },
            },
    {
        match self.queue.pop_min() {
            None => None,
            Some(s) => {
                let taken = self.pending.remove(s);
                self.pending.insert(s, None);
                match taken {
                    Some(b) => Some((s, b)),
                    None => {
                        assert(false);
                        None
                    },
                }
            },
        }
    }
}

} // verus!

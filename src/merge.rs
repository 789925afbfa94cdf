use vstd::prelude::*;

verus! {

/// True when `s` is sorted in non-decreasing order.
pub open spec fn sorted(s: Seq<i64>) -> bool {
    forall|i: int, j: int| 0 <= i < j < s.len() ==> s[i] <= s[j]
}

/// True when every stream is sorted in non-decreasing order.
pub open spec fn all_sorted(streams: Seq<Seq<i64>>) -> bool {
    forall|s: int| 0 <= s < streams.len() ==> sorted(#[trigger] streams[s])
}

/// `s` is the stream whose head is chosen next: it has a head, no head is
/// smaller, and every stream before it has a strictly larger head (ties go to
/// the stream that comes first).
pub open spec fn is_min_head(heads: Seq<Option<i64>>, s: int) -> bool {
    &&& 0 <= s < heads.len()
    &&& heads[s] is Some
    &&& forall|i: int|
        0 <= i < heads.len() && (#[trigger] heads[i]) is Some ==> heads[s]->0 <= heads[i]->0
    &&& forall|i: int|
        0 <= i < s && (#[trigger] heads[i]) is Some ==> heads[s]->0 < heads[i]->0
}

/// The priority structure of the merge: one slot per input stream, holding
/// the key of that stream's current head batch, or nothing once the stream is
/// exhausted (or before its next batch has been offered).
pub struct MergeQueue {
    heads: Vec<Option<i64>>,
}

impl View for MergeQueue {
    type V = Seq<Option<i64>>;

    closed spec fn view(&self) -> Seq<Option<i64>> {
        self.heads@
    }
}

impl MergeQueue {
    /// A queue for `n` streams, none of which has a head yet.
    pub fn new(n: usize) -> (q: MergeQueue)
        ensures
            q@ == Seq::new(n as nat, |i: int| None::<i64>),
    {
        let mut heads: Vec<Option<i64>> = Vec::with_capacity(n);
        let mut i: usize = 0;
        while i < n
            invariant
                i <= n,
                heads@ == Seq::new(i as nat, |k: int| None::<i64>),
            decreases n - i,
        {
            heads.push(None);
            i = i + 1;
            assert(heads@ =~= Seq::new(i as nat, |k: int| None::<i64>));
        }
        MergeQueue { heads }
    }

    /// The number of streams.
    pub fn num_streams(&self) -> (r: usize)
        ensures
            r == self@.len(),
    {
        self.heads.len()
    }

    /// True when no stream has a head left.
    pub fn is_empty(&self) -> (r: bool)
        ensures
            r == (forall|i: int| 0 <= i < self@.len() ==> (#[trigger] self@[i]) is None),
    {
        let mut i: usize = 0;
        while i < self.heads.len()
            invariant
                i <= self@.len(),
                forall|k: int| 0 <= k < i ==> (#[trigger] self@[k]) is None,
            decreases self@.len() - i,
        {
            if self.heads[i].is_some() {
                return false;
            }
            i = i + 1;
        }
        true
    }

    /// Sets the head key of `stream` to `key`.
    pub fn offer(&mut self, stream: usize, key: i64)
        requires
            stream < old(self)@.len(),
        ensures
            final(self)@ == old(self)@.update(stream as int, Some(key)),
    {
        self.heads.set(stream, Some(key));
    }

    /// Removes the smallest head and returns its stream, or `None` when no
    /// stream has a head. Equal keys go to the stream that comes first.
    pub fn pop_min(&mut self) -> (r: Option<usize>)
        ensures
            match r {
                None => {
                    &&& forall|i: int| 0 <= i < old(self)@.len() ==> (#[trigger] old(self)@[i]) is None
                    &&& final(self)@ == old(self)@
                },
                Some(s) => {
                    &&& is_min_head(old(self)@, s as int)
                    &&& final(self)@ == old(self)@.update(s as int, None)
                },
            },
    {
        let n = self.heads.len();
        let mut best: Option<usize> = None;
        let mut i: usize = 0;
        while i < n
            invariant
                n == self@.len(),
                i <= n,
                match best {
                    None => forall|k: int| 0 <= k < i ==> (#[trigger] self@[k]) is None,
                    Some(b) => {
                        &&& b < i
                        &&& self@[b as int] is Some
                        &&& forall|k: int|
                            0 <= k < i && (#[trigger] self@[k]) is Some ==> self@[b as int]->0
                                <= self@[k]->0
                        &&& forall|k: int|
                            0 <= k < b && (#[trigger] self@[k]) is Some ==> self@[b as int]->0
                                < self@[k]->0
                    },
                },
            decreases n - i,
        {
            match self.heads[i] {
                None => {},
                Some(key) => {
                    match best {
                        None => {
                            best = Some(i);
                        },
                        Some(b) => {
                            let bk = self.heads[b].unwrap();
                            if key < bk {
                                best = Some(i);
                            }
                        },
                    }
                },
            }
            i = i + 1;
        }
        match best {
            None => None,
            Some(b) => {
                self.heads.set(b, None);
                Some(b)
            },
        }
    }
}

/// The streams' keys as sequences.
pub open spec fn streams_view(streams: &Vec<Vec<i64>>) -> Seq<Seq<i64>> {
    Seq::new(streams@.len(), |i: int| streams@[i]@)
}

/// The key at position `p.1` of stream `p.0`.
pub open spec fn key_at(streams: Seq<Seq<i64>>, p: (usize, usize)) -> i64 {
    streams[p.0 as int][p.1 as int]
}

/// The head of stream `t` once its first `pos` keys have been taken.
pub open spec fn head_at(streams: Seq<Seq<i64>>, t: int, pos: int) -> Option<i64> {
    if pos < streams[t].len() {
        Some(streams[t][pos])
    } else {
        None
    }
}

/// How many keys of the first `k` streams are left once `next[t]` keys of
/// each stream `t` have been taken.
pub open spec fn remaining(streams: Seq<Seq<i64>>, next: Seq<usize>, k: int) -> int
    decreases k,
{
    if k <= 0 {
        0
    } else {
        remaining(streams, next, k - 1) + (streams[k - 1].len() - next[k - 1])
    }
}

/// The number of keys in all streams together.
pub open spec fn total_len(streams: Seq<Seq<i64>>) -> int {
    remaining(streams, Seq::new(streams.len(), |i: int| 0usize), streams.len() as int)
}

proof fn lemma_remaining_step(streams: Seq<Seq<i64>>, next: Seq<usize>, s: int, v: usize, k: int)
    requires
        0 <= s < next.len(),
        v == next[s] + 1,
        k <= next.len(),
    ensures
        remaining(streams, next.update(s, v), k) == remaining(streams, next, k) - (if s < k {
            1int
        } else {
            0int
        }),
    decreases k,
{
    if k > 0 {
        lemma_remaining_step(streams, next, s, v, k - 1);
    }
}

proof fn lemma_remaining_done(streams: Seq<Seq<i64>>, next: Seq<usize>, k: int)
    requires
        k <= next.len(),
        k <= streams.len(),
        forall|t: int| 0 <= t < k ==> next[t] == streams[t].len(),
    ensures
        remaining(streams, next, k) == 0,
    decreases k,
{
    if k > 0 {
        lemma_remaining_done(streams, next, k - 1);
    }
}

proof fn lemma_remaining_nonneg(streams: Seq<Seq<i64>>, next: Seq<usize>, k: int)
    requires
        k <= next.len(),
        k <= streams.len(),
        forall|t: int| 0 <= t < k ==> next[t] <= streams[t].len(),
    ensures
        remaining(streams, next, k) >= 0,
    decreases k,
{
    if k > 0 {
        lemma_remaining_nonneg(streams, next, k - 1);
    }
}

proof fn lemma_increasing_lower(r: Seq<(usize, usize)>, i: int)
    requires
        0 <= i < r.len(),
        forall|a: int, b: int| 0 <= a < b < r.len() ==> (#[trigger] r[a]).1 < (#[trigger] r[b]).1,
    ensures
        r[i].1 >= i,
    decreases i,
{
    if i > 0 {
        lemma_increasing_lower(r, i - 1);
        assert(r[i - 1].1 < r[i].1);
    }
}

proof fn lemma_increasing_upper(r: Seq<(usize, usize)>, i: int)
    requires
        0 <= i < r.len(),
        forall|a: int| 0 <= a < r.len() ==> (#[trigger] r[a]).1 < r.len(),
        forall|a: int, b: int| 0 <= a < b < r.len() ==> (#[trigger] r[a]).1 < (#[trigger] r[b]).1,
    ensures
        r[i].1 <= i,
    decreases r.len() - i,
{
    if i < r.len() - 1 {
        lemma_increasing_upper(r, i + 1);
        assert(r[i].1 < r[i + 1].1);
    }
}

/// The k-way merge of `streams` by key: the positions `(stream, index)` of
/// all keys, in the order in which the merge emits them. Each step emits the
/// smallest current head, equal keys going to the stream that comes first.
/// Every key is emitted once, each stream's keys in their own order. When
/// every stream is sorted, the emitted keys are sorted, and equal keys come
/// out in the order of their streams. A single stream comes out unchanged.
pub fn merge_order(streams: &Vec<Vec<i64>>) -> (r: Vec<(usize, usize)>)
    ensures
        r@.len() == total_len(streams_view(streams)),
        forall|i: int|
            0 <= i < r@.len() ==> (#[trigger] r@[i]).0 < streams@.len() && r@[i].1
                < streams@[r@[i].0 as int]@.len(),
        forall|i: int, j: int|
            0 <= i < j < r@.len() && (#[trigger] r@[i]).0 == (#[trigger] r@[j]).0 ==> r@[i].1
                < r@[j].1,
        all_sorted(streams_view(streams)) ==> forall|i: int, j: int|
            0 <= i < j < r@.len() ==> key_at(streams_view(streams), #[trigger] r@[i]) <= key_at(
                streams_view(streams),
                #[trigger] r@[j],
            ),
        all_sorted(streams_view(streams)) ==> forall|i: int, j: int|
            0 <= i < j < r@.len() && (#[trigger] r@[j]).0 < (#[trigger] r@[i]).0 ==> key_at(
                streams_view(streams),
                r@[i],
            ) < key_at(streams_view(streams), r@[j]),
        streams@.len() == 1 ==> forall|i: int|
            0 <= i < r@.len() ==> (#[trigger] r@[i]).0 == 0 && r@[i].1 == i,
{
    let ghost sv = streams_view(streams);
    let n = streams.len();
    let mut q = MergeQueue::new(n);
    let mut next: Vec<usize> = Vec::with_capacity(n);
    let mut s: usize = 0;
    while s < n
        invariant
            n == sv.len(),
            sv == streams_view(streams),
            s <= n,
            q@.len() == n,
            next@ == Seq::new(s as nat, |i: int| 0usize),
            forall|t: int| 0 <= t < s ==> #[trigger] q@[t] == head_at(sv, t, 0),
            forall|t: int| s <= t < n ==> (#[trigger] q@[t]) is None,
        decreases n - s,
    {
        if streams[s].len() > 0 {
            q.offer(s, streams[s][0]);
        }
        next.push(0);
        s = s + 1;
        assert(next@ =~= Seq::new(s as nat, |i: int| 0usize));
    }
    let mut out: Vec<(usize, usize)> = Vec::new();
    loop
        invariant
            n == sv.len(),
            sv == streams_view(streams),
            q@.len() == n,
            next@.len() == n,
            forall|t: int|
                0 <= t < n ==> #[trigger] next@[t] <= sv[t].len() && q@[t] == head_at(
                    sv,
                    t,
                    next@[t] as int,
                ),
            out@.len() + remaining(sv, next@, n as int) == total_len(sv),
            forall|i: int|
                0 <= i < out@.len() ==> (#[trigger] out@[i]).0 < n && out@[i].1 < next@[out@[i].0 as int],
            forall|i: int, j: int|
                0 <= i < j < out@.len() && (#[trigger] out@[i]).0 == (#[trigger] out@[j]).0
                    ==> out@[i].1 < out@[j].1,
            all_sorted(sv) ==> forall|i: int, j: int|
                0 <= i < j < out@.len() ==> key_at(sv, #[trigger] out@[i]) <= key_at(
                    sv,
                    #[trigger] out@[j],
                ),
            all_sorted(sv) ==> forall|i: int, t: int|
                0 <= i < out@.len() && 0 <= t < n && (#[trigger] q@[t]) is Some ==> key_at(
                    sv,
                    #[trigger] out@[i],
                ) <= q@[t]->0,
            all_sorted(sv) ==> forall|i: int, j: int|
                0 <= i < j < out@.len() && (#[trigger] out@[j]).0 < (#[trigger] out@[i]).0
                    ==> key_at(sv, out@[i]) < key_at(sv, out@[j]),
            all_sorted(sv) ==> forall|i: int, t: int|
                0 <= i < out@.len() && 0 <= t < out@[i].0 && (#[trigger] q@[t]) is Some ==> key_at(
                    sv,
                    #[trigger] out@[i],
                ) < q@[t]->0,
        ensures
            out@.len() == total_len(sv),
        decreases remaining(sv, next@, n as int),
    {
        let ghost q0 = q@;
        let ghost out0 = out@;
        let ghost next0 = next@;
        match q.pop_min() {
            None => {
                assert forall|t: int| 0 <= t < n implies next@[t] == sv[t].len() by {
                    assert(q0[t] is None);
                }
                proof {
                    lemma_remaining_done(sv, next@, n as int);
                }
                break ;
            },
            Some(t) => {
                let pos = next[t];
                assert(q0[t as int] == head_at(sv, t as int, pos as int));
                let len_t = streams[t].len();
                assert(pos < len_t);
                out.push((t, pos));
                next.set(t, pos + 1);
                proof {
                    assert(next@ == next0.update(t as int, (pos + 1) as usize));
                    lemma_remaining_step(sv, next0, t as int, (pos + 1) as usize, n as int);
                    lemma_remaining_nonneg(sv, next0, n as int);
                }
                if pos + 1 < len_t {
                    q.offer(t, streams[t][pos + 1]);
                }
                assert forall|u: int|
                    0 <= u < n implies #[trigger] next@[u] <= sv[u].len() && q@[u] == head_at(
                    sv,
                    u,
                    next@[u] as int,
                ) by {
                    if u != t {
                        assert(q0[u] == q@[u]);
                    }
                }
                assert forall|i: int|
                    0 <= i < out@.len() implies (#[trigger] out@[i]).0 < n && out@[i].1
                    < next@[out@[i].0 as int] by {
                    if i < out0.len() {
                        assert(out@[i] == out0[i]);
                    }
                }
                proof {
                    lemma_remaining_nonneg(sv, next@, n as int);
                    if all_sorted(sv) {
                        assert(sorted(sv[t as int]));
                        assert forall|i: int, u: int|
                            0 <= i < out@.len() && 0 <= u < n && (#[trigger] q@[u]) is Some implies key_at(
                            sv,
                            #[trigger] out@[i],
                        ) <= q@[u]->0 by {
                            if i < out0.len() {
                                assert(out@[i] == out0[i]);
                            }
                            if u != t {
                                assert(q0[u] == q@[u]);
                            }
                        }
                        assert forall|i: int, u: int|
                            0 <= i < out@.len() && 0 <= u < out@[i].0 && (#[trigger] q@[u]) is Some implies key_at(
                            sv,
                            #[trigger] out@[i],
                        ) < q@[u]->0 by {
                            if i < out0.len() {
                                assert(out@[i] == out0[i]);
                            }
                            if u != t {
                                assert(q0[u] == q@[u]);
                            }
                        }
                        assert forall|i: int, j: int|
                            0 <= i < j < out@.len() && (#[trigger] out@[j]).0 < (
                            #[trigger] out@[i]).0 implies key_at(sv, out@[i]) < key_at(sv, out@[j]) by {
                            assert(out@[i] == out0[i]);
                            if j < out0.len() {
                                assert(out@[j] == out0[j]);
                            } else {
                                assert(q0[out@[j].0 as int] is Some);
                            }
                        }
                    }
                }
            },
        }
    }
    proof {
        if n == 1 {
            let z = Seq::new(sv.len(), |i: int| 0usize);
            assert(remaining(sv, z, 0) == 0);
            assert(z[0] == 0);
            assert(total_len(sv) == sv[0].len());
            assert forall|a: int, b: int|
                0 <= a < b < out@.len() implies (#[trigger] out@[a]).1 < (#[trigger] out@[b]).1 by {
                assert(out@[a].0 == 0 && out@[b].0 == 0);
            }
            assert forall|i: int| 0 <= i < out@.len() implies (#[trigger] out@[i]).0 == 0 && out@[i].1
                == i by {
                lemma_increasing_lower(out@, i);
                lemma_increasing_upper(out@, i);
            }
        }
    }
    out
}

} // verus!

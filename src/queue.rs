use vstd::prelude::*;

verus! {

/// A first-in first-out queue over a buffer that is never shifted.
#[derive(Debug)]
pub struct Queue<T> {
    buf: Vec<T>,
    start: usize,
}

impl<T: Copy> View for Queue<T> {
    type V = Seq<T>;

    closed spec fn view(&self) -> Seq<T> {
        self.buf@.subrange(self.start as int, self.buf@.len() as int)
    }
}

impl<T: Copy> Queue<T> {
    pub closed spec fn wf(&self) -> bool {
        self.start <= self.buf@.len()
    }

    /// An empty queue.
    pub fn new() -> (r: Queue<T>)
        ensures
            r.wf(),
            r@ == Seq::<T>::empty(),
    {
        let r = Queue { buf: Vec::new(), start: 0 };
        assert(r@ =~= Seq::<T>::empty());
        r
    }

    /// The number of items queued.
    pub fn len(&self) -> (r: usize)
        requires
            self.wf(),
        ensures
            r == self@.len(),
    {
        self.buf.len() - self.start
    }

    /// Queues `value` at the back.
    pub fn push(&mut self, value: T)
        requires
            old(self).wf(),
        ensures
            final(self).wf(),
            final(self)@ == old(self)@.push(value),
    {
        self.buf.push(value);
        assert(self@ =~= old(self)@.push(value));
    }

    /// Takes the front item, if any.
    pub fn pop_first(&mut self) -> (r: Option<T>)
        requires
            old(self).wf(),
        ensures
            final(self).wf(),
            old(self)@.len() == 0 ==> r is None && final(self)@ == old(self)@,
            old(self)@.len() > 0 ==> r == Some(old(self)@[0]) && final(self)@ == old(self)@.drop_first(),
    {
        if self.start < self.buf.len() {
            let value = self.buf[self.start];
            self.start = self.start + 1;
            assert(self@ =~= old(self)@.drop_first());
            Some(value)
        } else {
            None
        }
    }

    /// The front item, if any.
    pub fn peek_first(&self) -> (r: Option<&T>)
        requires
            self.wf(),
        ensures
            self@.len() == 0 ==> r is None,
            self@.len() > 0 ==> r == Some(&self@[0]),
    {
        if self.start < self.buf.len() {
            Some(&self.buf[self.start])
        } else {
            None
        }
    }
}

/// Whether queue `q` holds two items or more and has the smallest front
/// among such queues, strictly smaller than those of the queues before it.
pub open spec fn is_min2(qs: Seq<Seq<usize>>, q: int) -> bool {
    &&& 0 <= q < qs.len()
    &&& qs[q].len() >= 2
    &&& forall|j: int|
        #![trigger qs[j]]
        0 <= j < qs.len() && qs[j].len() >= 2 ==> qs[q][0] <= qs[j][0] && (j < q ==> qs[q][0]
            < qs[j][0])
}

/// Whether some queue holds two items or more.
pub open spec fn has_pair(qs: Seq<Seq<usize>>) -> bool {
    exists|j: int| 0 <= j < qs.len() && #[trigger] qs[j].len() >= 2
}

pub proof fn lemma_min2_unique(qs: Seq<Seq<usize>>, a: int, b: int)
    requires
        is_min2(qs, a),
        is_min2(qs, b),
    ensures
        a == b,
{
    if a < b {
        assert(qs[b][0] < qs[a][0]);
    } else if b < a {
        assert(qs[a][0] < qs[b][0]);
    }
}

pub open spec fn queues_view(files: Seq<Queue<usize>>) -> Seq<Seq<usize>> {
    files.map_values(|q: Queue<usize>| q@)
}

pub open spec fn queues_wf(files: Seq<Queue<usize>>) -> bool {
    forall|i: int| 0 <= i < files.len() ==> #[trigger] files[i].wf()
}

/// Takes the two front items of the queue chosen by `is_min2`, with its
/// coordinates: its place within its group of three, and the group.
pub fn pop_min2(files: &mut Vec<Queue<usize>>) -> (r: Option<((usize, usize), (usize, usize))>)
    requires
        queues_wf(old(files)@),
    ensures
        queues_wf(final(files)@),
        !has_pair(queues_view(old(files)@)) ==> r is None && queues_view(final(files)@) == queues_view(old(files)@),
        has_pair(queues_view(old(files)@)) ==> r is Some && ({
            let (pair, coords) = r->0;
            let q = 3 * coords.1 + coords.0;
            let qs = queues_view(old(files)@);
            &&& coords.0 < 3
            &&& is_min2(qs, q)
            &&& pair == (qs[q][0], qs[q][1])
            &&& queues_view(final(files)@) == qs.update(q, qs[q].skip(2))
        }),
{
    let ghost qs = queues_view(files@);
    let n = files.len();
    let mut best: Option<usize> = None;
    let mut best_front: usize = 0;
    let mut i: usize = 0;
    while i < n
        invariant
            n == files@.len(),
            qs == queues_view(files@),
            queues_wf(files@),
            i <= n,
            match best {
                Some(b) => b < i && qs[b as int].len() >= 2 && best_front == qs[b as int][0]
                    && forall|j: int|
                    #![trigger qs[j]]
                    0 <= j < i && qs[j].len() >= 2 ==> best_front <= qs[j][0] && (j < b ==> best_front
                        < qs[j][0]),
                None => forall|j: int| 0 <= j < i ==> #[trigger] qs[j].len() < 2,
            },
        decreases n - i,
    {
        assert(qs[i as int] == files@[i as int]@);
        if files[i].len() >= 2 {
            let front = *files[i].peek_first().unwrap();
            match best {
                Some(_) => {
                    if front < best_front {
                        best = Some(i);
                        best_front = front;
                    }
                },
                None => {
                    best = Some(i);
                    best_front = front;
                },
            }
        }
        i = i + 1;
    }
    match best {
        Some(b) => {
            assert(is_min2(qs, b as int));
            assert(files@[b as int].wf());
            let first = files[b].pop_first().unwrap();
            let second = files[b].pop_first().unwrap();
            assert(queues_view(files@) =~= qs.update(b as int, qs[b as int].skip(2))) by {
                assert(qs[b as int].drop_first().drop_first() =~= qs[b as int].skip(2));
            }
            assert(queues_wf(files@));
            assert(3 * (b / 3) + b % 3 == b);
            Some(((first, second), (b % 3, b / 3)))
        },
        None => None,
    }
}

} // verus!

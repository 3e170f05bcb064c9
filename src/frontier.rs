//! The frontier: every crawl task admitted so far, in order of admission,
//! with a cursor marking those already handed out. A URL is admitted at most
//! once and never deeper than the limit.
use vstd::prelude::*;
use crate::bytes::copy_range;

verus! {

/// A page to visit and its number of link hops from the seed.
pub struct CrawlTask {
    pub url: Vec<u8>,
    pub depth: u16,
}

impl View for CrawlTask {
    type V = (Seq<u8>, u16);

    open spec fn view(&self) -> (Seq<u8>, u16) {
        (self.url@, self.depth)
    }
}

impl CrawlTask {
    /// A copy of the task.
    pub fn duplicate(&self) -> (r: CrawlTask)
        ensures
            r@ == self@,
    {
        let url = copy_range(self.url.as_slice(), 0, self.url.len(), false);
        assert(self.url@.subrange(0, self.url@.len() as int) =~= self.url@);
        CrawlTask { url, depth: self.depth }
    }
}

pub struct Frontier {
    tasks: Vec<CrawlTask>,
    next: usize,
    checked_out: usize,
    completed: usize,
    limit: u16,
    stopped: bool,
    accepted: Ghost<nat>,
}

impl Frontier {
    /// Every task admitted so far, in order of admission.
    pub closed spec fn tasks(&self) -> Seq<(Seq<u8>, u16)> {
        self.tasks@.map_values(|t: CrawlTask| t@)
    }

    /// The URLs admitted so far: the visited set, in order of admission.
    pub open spec fn urls(&self) -> Seq<Seq<u8>> {
        self.tasks().map_values(|t: (Seq<u8>, u16)| t.0)
    }

    /// The visited set.
    pub open spec fn visited(&self) -> Set<Seq<u8>> {
        self.urls().to_set()
    }

    /// How many tasks have been handed out by `pop`.
    pub closed spec fn popped(&self) -> nat {
        self.next as nat
    }

    /// The tasks admitted and not yet handed out, in the order `pop` returns them.
    pub open spec fn pending(&self) -> Seq<(Seq<u8>, u16)> {
        self.tasks().subrange(self.popped() as int, self.tasks().len() as int)
    }

    /// Tasks handed out and not yet reported finished.
    pub closed spec fn in_flight(&self) -> nat {
        self.checked_out as nat
    }

    /// Tasks handed out and reported finished.
    pub closed spec fn finished(&self) -> nat {
        self.completed as nat
    }

    pub closed spec fn depth_limit(&self) -> u16 {
        self.limit
    }

    pub closed spec fn is_stopped(&self) -> bool {
        self.stopped
    }

    /// How many calls of `offer` have returned true.
    pub closed spec fn admissions(&self) -> nat {
        self.accepted@
    }

    pub closed spec fn wf(&self) -> bool {
        &&& self.next <= self.tasks@.len()
        &&& self.completed + self.checked_out == self.next
        &&& self.accepted@ == self.tasks@.len()
        &&& self.urls().no_duplicates()
        &&& forall|k: int| 0 <= k < self.tasks@.len() ==> self.tasks@[k].depth <= self.limit
    }

    /// An empty frontier admitting tasks of depth at most `limit`.
    pub fn new(limit: u16) -> (r: Frontier)
        ensures
            r.wf(),
            r.tasks() == Seq::<(Seq<u8>, u16)>::empty(),
            r.popped() == 0,
            r.in_flight() == 0,
            r.finished() == 0,
            r.admissions() == 0,
            r.depth_limit() == limit,
            !r.is_stopped(),
    {
        let r = Frontier {
            tasks: Vec::new(),
            next: 0,
            checked_out: 0,
            completed: 0,
            limit,
            stopped: false,
            accepted: Ghost(0),
        };
        assert(r.tasks() =~= Seq::<(Seq<u8>, u16)>::empty());
        assert(r.urls() =~= Seq::<Seq<u8>>::empty());
        r
    }

    fn holds(&self, url: &[u8]) -> (r: bool)
        ensures
            r == self.urls().contains(url@),
    {
        let mut i: usize = 0;
        while i < self.tasks.len()
            invariant
                i <= self.tasks@.len(),
                forall|k: int| 0 <= k < i ==> self.tasks@[k].url@ != url@,
            decreases self.tasks@.len() - i,
        {
            if crate::bytes::same_bytes(self.tasks[i].url.as_slice(), url) {
                assert(self.urls()[i as int] == url@);
                return true;
            }
            i = i + 1;
        }
        assert(!self.urls().contains(url@)) by {
            if self.urls().contains(url@) {
                let k = choose|k: int| 0 <= k < self.urls().len() && self.urls()[k] == url@;
                assert(self.tasks@[k].url@ == url@);
            }
        }
        false
    }

    /// Admits the task `(url, depth)` where the crawl is not stopped, `depth`
    /// is within the limit and `url` was never admitted; returns whether it did.
    /// A refused task leaves the frontier as it was.
    pub fn offer(&mut self, url: Vec<u8>, depth: u16) -> (r: bool)
        requires
            old(self).wf(),
        ensures
            final(self).wf(),
            r == (!old(self).is_stopped() && depth <= old(self).depth_limit() && !old(
                self,
            ).urls().contains(url@)),
            r ==> final(self).tasks() == old(self).tasks().push((url@, depth)),
            r ==> final(self).admissions() == old(self).admissions() + 1,
            !r ==> final(self).tasks() == old(self).tasks(),
            !r ==> final(self).admissions() == old(self).admissions(),
            final(self).popped() == old(self).popped(),
            final(self).in_flight() == old(self).in_flight(),
            final(self).finished() == old(self).finished(),
            final(self).depth_limit() == old(self).depth_limit(),
            final(self).is_stopped() == old(self).is_stopped(),
    {
        if self.stopped || depth > self.limit || self.holds(url.as_slice()) {
            return false;
        }
        let ghost old_tasks = self.tasks();
        let ghost old_urls = self.urls();
        let ghost uv = url@;
        self.tasks.push(CrawlTask { url, depth });
        self.accepted = Ghost(self.accepted@ + 1);
        assert(self.tasks() =~= old_tasks.push((uv, depth)));
        assert(self.urls() =~= old_urls.push(uv));
        assert(self.urls().no_duplicates()) by {
            assert forall|a: int, b: int|
                0 <= a < b < self.urls().len() implies self.urls()[a] != self.urls()[b] by {
                if b == self.urls().len() - 1 {
                    assert(old_urls[a] == self.urls()[a]);
                    assert(old_urls.contains(self.urls()[a]));
                }
            }
        }
        true
    }

    /// Hands out the next pending task, if any.
    pub fn pop(&mut self) -> (r: Option<CrawlTask>)
        requires
            old(self).wf(),
        ensures
            final(self).wf(),
            final(self).tasks() == old(self).tasks(),
            final(self).admissions() == old(self).admissions(),
            final(self).finished() == old(self).finished(),
            final(self).depth_limit() == old(self).depth_limit(),
            final(self).is_stopped() == old(self).is_stopped(),
            old(self).pending().len() == 0 ==> r is None && final(self).popped() == old(self).popped()
                && final(self).in_flight() == old(self).in_flight(),
            old(self).pending().len() > 0 ==> r is Some && r->0@ == old(self).pending()[0]
                && final(self).popped() == old(self).popped() + 1 && final(self).in_flight()
                == old(self).in_flight() + 1,
            r matches Some(t) ==> t.depth <= final(self).depth_limit(),
    {
        if self.next >= self.tasks.len() {
            return None;
        }
        let t = self.tasks[self.next].duplicate();
        assert(t@ == self.tasks()[self.next as int]);
        self.next = self.next + 1;
        self.checked_out = self.checked_out + 1;
        Some(t)
    }

    /// Records that a task handed out by `pop` is done.
    pub fn finish(&mut self)
        requires
            old(self).wf(),
            old(self).in_flight() > 0,
        ensures
            final(self).wf(),
            final(self).tasks() == old(self).tasks(),
            final(self).admissions() == old(self).admissions(),
            final(self).popped() == old(self).popped(),
            final(self).in_flight() == old(self).in_flight() - 1,
            final(self).finished() == old(self).finished() + 1,
            final(self).depth_limit() == old(self).depth_limit(),
            final(self).is_stopped() == old(self).is_stopped(),
    {
        self.checked_out = self.checked_out - 1;
        self.completed = self.completed + 1;
    }

    /// From now on no task is admitted.
    pub fn stop(&mut self)
        requires
            old(self).wf(),
        ensures
            final(self).wf(),
            final(self).is_stopped(),
            final(self).tasks() == old(self).tasks(),
            final(self).admissions() == old(self).admissions(),
            final(self).popped() == old(self).popped(),
            final(self).in_flight() == old(self).in_flight(),
            final(self).finished() == old(self).finished(),
            final(self).depth_limit() == old(self).depth_limit(),
    {
        self.stopped = true;
    }

    /// Whether the crawl was stopped.
    pub fn is_stopped_now(&self) -> (r: bool)
        ensures
            r == self.is_stopped(),
    {
        self.stopped
    }

    /// The depth limit.
    pub fn limit_now(&self) -> (r: u16)
        ensures
            r == self.depth_limit(),
    {
        self.limit
    }

    /// Whether no task is pending and none is in flight.
    pub fn is_drained(&self) -> (r: bool)
        requires
            self.wf(),
        ensures
            r == (self.pending().len() == 0 && self.in_flight() == 0),
    {
        self.next >= self.tasks.len() && self.checked_out == 0
    }

    /// The number of tasks handed out and not yet finished.
    pub fn in_flight_count(&self) -> (r: usize)
        ensures
            r == self.in_flight(),
    {
        self.checked_out
    }

    /// The number of tasks reported finished.
    pub fn finished_count(&self) -> (r: usize)
        ensures
            r == self.finished(),
    {
        self.completed
    }

    /// The number of URLs admitted so far.
    pub fn visited_count(&self) -> (r: usize)
        requires
            self.wf(),
        ensures
            r == self.urls().len(),
    {
        self.tasks.len()
    }

    /// Each task handed out is either in flight or finished.
    pub proof fn lemma_counts(&self)
        requires
            self.wf(),
        ensures
            self.finished() + self.in_flight() == self.popped(),
            self.popped() <= self.tasks().len(),
            self.admissions() == self.tasks().len(),
    {
    }

    /// Every admitted task respects the depth limit.
    pub proof fn lemma_depth_within_limit(&self)
        requires
            self.wf(),
        ensures
            forall|k: int| 0 <= k < self.tasks().len() ==> #[trigger] self.tasks()[k].1 <= self.depth_limit(),
    {
        assert forall|k: int| 0 <= k < self.tasks().len() implies #[trigger] self.tasks()[k].1 <= self.depth_limit() by {
            assert(self.tasks()[k] == self.tasks@[k]@);
        }
    }

    /// No URL is admitted twice: the visited set has exactly as many members as
    /// there were admissions.
    pub proof fn lemma_visited_matches_admissions(&self)
        requires
            self.wf(),
        ensures
            self.visited().len() == self.admissions(),
            self.urls().no_duplicates(),
    {
        self.urls().unique_seq_to_set();
    }
}

} // verus!

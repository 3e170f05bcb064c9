//! The crawl coordinator. Workers ask it for a job, do the fetching and
//! writing themselves, and report the outcome back; the coordinator admits
//! the pages and images found, counts results, and knows when all is done.
use vstd::prelude::*;
use crate::bytes::{contains_bytes, copy_range, lemma_push_contains, views};
use crate::download::{candidate, file_name_of, final_name_ok, Claim, NameRegistry};
use crate::extract::{extract, link_at, RefKind};
use crate::frontier::{CrawlTask, Frontier};
use crate::url::{canonical, canonical_key, UrlError};

verus! {

/// Work handed to a worker.
pub enum Job {
    /// Fetch a page; if it is an image, save it.
    Page(CrawlTask),
    /// Fetch an image and save it.
    Image(Vec<u8>),
}

/// What a worker found doing a job.
pub enum Outcome {
    /// The URL held a page with this markup.
    Html(Vec<u8>),
    /// The URL held an image, now saved.
    Saved,
    /// The URL held something else; it is ignored.
    Other,
    /// Fetching or saving failed.
    Failed,
}

/// The counts reported when the crawl is drained.
#[derive(Clone, Copy, Debug, PartialEq, Eq, Structural)]
pub struct Report {
    pub pages_visited: usize,
    pub downloaded: usize,
    pub failed: usize,
}

/// Whether `u` is referenced, as a `kind`, somewhere in `html` read with base `base`.
pub open spec fn is_link(html: Seq<u8>, base: Seq<u8>, u: Seq<u8>, kind: RefKind) -> bool {
    exists|j: int| 0 <= j < html.len() && #[trigger] link_at(html, base, j, kind) == Some(u)
}

/// `n + 1`, held at the largest `usize`.
pub open spec fn bump(n: usize) -> usize {
    if n < usize::MAX {
        (n + 1) as usize
    } else {
        n
    }
}

/// Offers each of `links` to the frontier at depth `depth`.
fn offer_all(f: &mut Frontier, links: &Vec<Vec<u8>>, depth: u16)
    requires
        old(f).wf(),
        depth <= old(f).depth_limit(),
    ensures
        final(f).wf(),
        final(f).popped() == old(f).popped(),
        final(f).in_flight() == old(f).in_flight(),
        final(f).finished() == old(f).finished(),
        final(f).depth_limit() == old(f).depth_limit(),
        final(f).is_stopped() == old(f).is_stopped(),
        final(f).tasks().len() >= old(f).tasks().len(),
        final(f).tasks().subrange(0, old(f).tasks().len() as int) == old(f).tasks(),
        forall|k: int|
            old(f).tasks().len() <= k < final(f).tasks().len() ==> #[trigger] final(f).tasks()[k].1
                == depth,
        old(f).is_stopped() ==> final(f).tasks() == old(f).tasks(),
        !old(f).is_stopped() ==> forall|u: Seq<u8>|
            #[trigger] final(f).urls().contains(u) <==> (old(f).urls().contains(u) || views(
                links@,
            ).contains(u)),
{
    let mut i: usize = 0;
    assert(views(links@).take(0) =~= Seq::<Seq<u8>>::empty());
    assert(old(f).tasks().subrange(0, old(f).tasks().len() as int) =~= old(f).tasks());
    while i < links.len()
        invariant
            i <= links@.len(),
            f.wf(),
            f.popped() == old(f).popped(),
            f.in_flight() == old(f).in_flight(),
            f.finished() == old(f).finished(),
            f.depth_limit() == old(f).depth_limit(),
            f.is_stopped() == old(f).is_stopped(),
            depth <= f.depth_limit(),
            f.tasks().len() >= old(f).tasks().len(),
            f.tasks().subrange(0, old(f).tasks().len() as int) == old(f).tasks(),
            forall|k: int|
                old(f).tasks().len() <= k < f.tasks().len() ==> #[trigger] f.tasks()[k].1 == depth,
            old(f).is_stopped() ==> f.tasks() == old(f).tasks(),
            !old(f).is_stopped() ==> forall|u: Seq<u8>|
                #[trigger] f.urls().contains(u) <==> (old(f).urls().contains(u) || views(
                    links@,
                ).take(i as int).contains(u)),
        decreases links@.len() - i,
    {
        let ghost before = *f;
        let u = copy_range(links[i].as_slice(), 0, links[i].len(), false);
        assert(links@[i as int]@.subrange(0, links@[i as int]@.len() as int) =~= links@[i as int]@);
        let ghost uv = u@;
        let added = f.offer(u, depth);
        assert(views(links@).take(i + 1) =~= views(links@).take(i as int).push(uv));
        proof {
            lemma_push_contains(views(links@).take(i as int), uv);
            if added {
                assert(f.urls() =~= before.urls().push(uv));
                lemma_push_contains(before.urls(), uv);
                assert(f.tasks().subrange(0, old(f).tasks().len() as int) =~= before.tasks().subrange(
                    0,
                    old(f).tasks().len() as int,
                ));
            }
        }
        i = i + 1;
    }
    assert(views(links@).take(links@.len() as int) =~= views(links@));
}

/// Adds to `images` each of `links` it does not hold yet.
fn schedule_all(images: &mut Vec<Vec<u8>>, links: &Vec<Vec<u8>>)
    requires
        views(old(images)@).no_duplicates(),
    ensures
        views(final(images)@).no_duplicates(),
        final(images)@.len() >= old(images)@.len(),
        views(final(images)@).subrange(0, old(images)@.len() as int) == views(old(images)@),
        forall|u: Seq<u8>|
            #[trigger] views(final(images)@).contains(u) <==> (views(old(images)@).contains(u)
                || views(links@).contains(u)),
{
    let mut i: usize = 0;
    assert(views(links@).take(0) =~= Seq::<Seq<u8>>::empty());
    assert(views(old(images)@).subrange(0, old(images)@.len() as int) =~= views(old(images)@));
    while i < links.len()
        invariant
            i <= links@.len(),
            views(images@).no_duplicates(),
            images@.len() >= old(images)@.len(),
            views(images@).subrange(0, old(images)@.len() as int) == views(old(images)@),
            forall|u: Seq<u8>|
                #[trigger] views(images@).contains(u) <==> (views(old(images)@).contains(u)
                    || views(links@).take(i as int).contains(u)),
        decreases links@.len() - i,
    {
        let ghost before = views(images@);
        let ghost uv = links@[i as int]@;
        assert(views(links@).take(i + 1) =~= views(links@).take(i as int).push(uv));
        proof {
            lemma_push_contains(views(links@).take(i as int), uv);
        }
        if !contains_bytes(images, links[i].as_slice()) {
            let u = copy_range(links[i].as_slice(), 0, links[i].len(), false);
            assert(uv.subrange(0, uv.len() as int) =~= uv);
            images.push(u);
            assert(views(images@) =~= before.push(uv));
            proof {
                lemma_push_contains(before, uv);
            }
            assert(views(images@).no_duplicates()) by {
                assert forall|a: int, b: int|
                    0 <= a < b < views(images@).len() implies views(images@)[a] != views(images@)[b] by {
                    if b == views(images@).len() - 1 {
                        assert(before[a] == views(images@)[a]);
                        assert(before.contains(before[a]));
                    }
                }
            }
            assert(views(images@).subrange(0, old(images)@.len() as int) =~= before.subrange(
                0,
                old(images)@.len() as int,
            ));
        }
        i = i + 1;
    }
    assert(views(links@).take(links@.len() as int) =~= views(links@));
}

pub struct Crawl {
    frontier: Frontier,
    images: Vec<Vec<u8>>,
    image_next: usize,
    images_in_flight: usize,
    names: NameRegistry,
    recursive: bool,
    downloaded: usize,
    failed: usize,
}

impl Crawl {
    pub closed spec fn frontier(&self) -> Frontier {
        self.frontier
    }

    pub closed spec fn names(&self) -> NameRegistry {
        self.names
    }

    /// Every image URL scheduled so far, in order.
    pub closed spec fn images(&self) -> Seq<Seq<u8>> {
        views(self.images@)
    }

    /// How many images have been handed out.
    pub closed spec fn images_popped(&self) -> nat {
        self.image_next as nat
    }

    pub closed spec fn images_in_flight(&self) -> nat {
        self.images_in_flight as nat
    }

    pub closed spec fn recursive(&self) -> bool {
        self.recursive
    }

    pub closed spec fn downloaded(&self) -> usize {
        self.downloaded
    }

    pub closed spec fn failed(&self) -> usize {
        self.failed
    }

    pub closed spec fn wf(&self) -> bool {
        &&& self.frontier.wf()
        &&& self.names.wf()
        &&& self.images_in_flight <= self.image_next <= self.images@.len()
        &&& views(self.images@).no_duplicates()
        &&& self.frontier.tasks().len() >= 1
        &&& !self.recursive ==> self.frontier.tasks().len() == 1
    }

    /// A crawl seeded with the canonical form of `root` at depth 0; fails
    /// where `root` is not an absolute `http` or `https` URL. Without
    /// recursion the depth limit is 0, whatever `limit` is.
    pub fn new(root: &[u8], recursive: bool, limit: u16) -> (r: Result<Crawl, UrlError>)
        ensures
            match r {
                Ok(c) => {
                    &&& c.wf()
                    &&& canonical_key(root@) is Ok
                    &&& c.frontier().tasks() == seq![(canonical_key(root@)->Ok_0, 0u16)]
                    &&& c.frontier().depth_limit() == (if recursive { limit } else { 0 })
                    &&& c.frontier().popped() == 0
                    &&& c.frontier().in_flight() == 0
                    &&& c.frontier().finished() == 0
                    &&& !c.frontier().is_stopped()
                    &&& c.recursive() == recursive
                    &&& c.images() == Seq::<Seq<u8>>::empty()
                    &&& c.images_popped() == 0
                    &&& c.images_in_flight() == 0
                    &&& c.downloaded() == 0
                    &&& c.failed() == 0
                },
                Err(e) => canonical_key(root@) == Err::<Seq<u8>, UrlError>(e),
            },
    {
        let key = match canonical(root) {
            Ok(k) => k,
            Err(e) => return Err(e),
        };
        let ghost kv = key@;
        let mut frontier = Frontier::new(if recursive { limit } else { 0 });
        let _ = frontier.offer(key, 0);
        assert(Seq::<Seq<u8>>::empty().contains(kv) == false);
        assert(frontier.tasks() =~= seq![(kv, 0u16)]);
        let c = Crawl {
            frontier,
            images: Vec::new(),
            image_next: 0,
            images_in_flight: 0,
            names: NameRegistry::new(),
            recursive,
            downloaded: 0,
            failed: 0,
        };
        assert(c.images() =~= Seq::<Seq<u8>>::empty());
        Ok(c)
    }

    /// Hands out the next job: a pending page first, else a pending image.
    pub fn next_job(&mut self) -> (r: Option<Job>)
        requires
            old(self).wf(),
        ensures
            final(self).wf(),
            final(self).recursive() == old(self).recursive(),
            final(self).downloaded() == old(self).downloaded(),
            final(self).failed() == old(self).failed(),
            final(self).frontier().tasks() == old(self).frontier().tasks(),
            final(self).frontier().finished() == old(self).frontier().finished(),
            final(self).frontier().depth_limit() == old(self).frontier().depth_limit(),
            final(self).frontier().is_stopped() == old(self).frontier().is_stopped(),
            final(self).images() == old(self).images(),
            old(self).frontier().pending().len() > 0 ==> (r matches Some(Job::Page(t)) && t@
                == old(self).frontier().pending()[0] && t.depth <= old(self).frontier().depth_limit()
                && final(self).frontier().popped() == old(self).frontier().popped() + 1
                && final(self).frontier().in_flight() == old(self).frontier().in_flight() + 1
                && final(self).images_popped() == old(self).images_popped()
                && final(self).images_in_flight() == old(self).images_in_flight()),
            old(self).frontier().pending().len() == 0 && old(self).images_popped() < old(
                self,
            ).images().len() ==> (r matches Some(Job::Image(u)) && u@ == old(self).images()[old(
                self,
            ).images_popped() as int] && final(self).frontier().popped() == old(
                self,
            ).frontier().popped() && final(self).frontier().in_flight() == old(
                self,
            ).frontier().in_flight() && final(self).images_popped() == old(self).images_popped() + 1
                && final(self).images_in_flight() == old(self).images_in_flight() + 1),
            old(self).frontier().pending().len() == 0 && old(self).images_popped() == old(
                self,
            ).images().len() ==> r is None && final(self).frontier().popped() == old(
                self,
            ).frontier().popped() && final(self).frontier().in_flight() == old(
                self,
            ).frontier().in_flight() && final(self).images_popped() == old(self).images_popped()
                && final(self).images_in_flight() == old(self).images_in_flight(),
    {
        match self.frontier.pop() {
            Some(t) => Some(Job::Page(t)),
            None => {
                if self.image_next < self.images.len() {
                    let u = copy_range(
                        self.images[self.image_next].as_slice(),
                        0,
                        self.images[self.image_next].len(),
                        false,
                    );
                    assert(self.images@[self.image_next as int]@.subrange(
                        0,
                        self.images@[self.image_next as int]@.len() as int,
                    ) =~= self.images@[self.image_next as int]@);
                    assert(u@ == self.images()[self.image_next as int]);
                    self.image_next = self.image_next + 1;
                    self.images_in_flight = self.images_in_flight + 1;
                    Some(Job::Image(u))
                } else {
                    None
                }
            },
        }
    }

    /// Takes back a job handed out by `next_job` with what the worker found.
    /// A page's markup yields its images, to be saved whatever the depth, and,
    /// where recursion is on and the page lies above the depth limit, its
    /// links at one hop deeper. A saved file and a failure are counted; a
    /// failure changes nothing else, so the rest of the crawl goes on.
    /// Once the crawl is stopped nothing new is admitted.
    pub fn complete(&mut self, job: &Job, outcome: Outcome)
        requires
            old(self).wf(),
            job is Page ==> old(self).frontier().in_flight() > 0,
            job is Image ==> old(self).images_in_flight() > 0,
        ensures
            final(self).wf(),
            final(self).recursive() == old(self).recursive(),
            final(self).frontier().popped() == old(self).frontier().popped(),
            final(self).frontier().depth_limit() == old(self).frontier().depth_limit(),
            final(self).frontier().is_stopped() == old(self).frontier().is_stopped(),
            final(self).images_popped() == old(self).images_popped(),
            job is Page ==> final(self).frontier().finished() == old(self).frontier().finished() + 1
                && final(self).frontier().in_flight() == old(self).frontier().in_flight() - 1
                && final(self).images_in_flight() == old(self).images_in_flight(),
            job is Image ==> final(self).frontier().finished() == old(self).frontier().finished()
                && final(self).frontier().in_flight() == old(self).frontier().in_flight()
                && final(self).images_in_flight() == old(self).images_in_flight() - 1,
            final(self).downloaded() == (if outcome is Saved {
                bump(old(self).downloaded())
            } else {
                old(self).downloaded()
            }),
            final(self).failed() == (if outcome is Failed {
                bump(old(self).failed())
            } else {
                old(self).failed()
            }),
            final(self).frontier().tasks().len() >= old(self).frontier().tasks().len(),
            final(self).frontier().tasks().subrange(0, old(self).frontier().tasks().len() as int)
                == old(self).frontier().tasks(),
            forall|k: int|
                old(self).frontier().tasks().len() <= k < final(self).frontier().tasks().len()
                    ==> (job matches Job::Page(t) && #[trigger] final(self).frontier().tasks()[k].1
                    == t.depth + 1),
            forall|u: Seq<u8>|
                #[trigger] final(self).frontier().urls().contains(u) <==> (old(
                    self,
                ).frontier().urls().contains(u) || (children_admitted(*old(self), job, outcome)
                    && is_link(outcome->Html_0@, job->Page_0.url@, u, RefKind::Page))),
            final(self).images().len() >= old(self).images().len(),
            final(self).images().subrange(0, old(self).images().len() as int) == old(self).images(),
            forall|u: Seq<u8>|
                #[trigger] final(self).images().contains(u) <==> (old(self).images().contains(u)
                    || (images_admitted(*old(self), job, outcome) && is_link(
                    outcome->Html_0@,
                    job->Page_0.url@,
                    u,
                    RefKind::Image,
                ))),
    {
        proof {
            self.frontier.lemma_counts();
        }
        match job {
            Job::Page(_) => {
                self.frontier.finish();
            },
            Job::Image(_) => {
                self.images_in_flight = self.images_in_flight - 1;
            },
        }
        assert(self.frontier.tasks().subrange(0, self.frontier.tasks().len() as int) =~= self.frontier.tasks());
        assert(self.images().subrange(0, self.images().len() as int) =~= self.images());
        match outcome {
            Outcome::Html(body) => {
                if let Job::Page(t) = job {
                    if !self.frontier.is_stopped_now() {
                        let found = extract(body.as_slice(), t.url.as_slice(), RefKind::Image);
                        schedule_all(&mut self.images, &found);
                        proof {
                            assert forall|u: Seq<u8>| views(found@).contains(u) <==> is_link(
                                body@,
                                t.url@,
                                u,
                                RefKind::Image,
                            ) by {}
                        }
                    }
                    if self.recursive && t.depth < self.frontier.limit_now() {
                        let links = extract(body.as_slice(), t.url.as_slice(), RefKind::Page);
                        offer_all(&mut self.frontier, &links, t.depth + 1);
                        proof {
                            assert forall|u: Seq<u8>| views(links@).contains(u) <==> is_link(
                                body@,
                                t.url@,
                                u,
                                RefKind::Page,
                            ) by {}
                        }
                    }
                }
            },
            Outcome::Saved => {
                self.downloaded = self.downloaded.saturating_add(1);
            },
            Outcome::Other => {},
            Outcome::Failed => {
                self.failed = self.failed.saturating_add(1);
            },
        }
    }

    /// Whether `job` may be completed: a job of its kind is out.
    pub fn can_complete(&self, job: &Job) -> (r: bool)
        ensures
            job is Page ==> r == (self.frontier().in_flight() > 0),
            job is Image ==> r == (self.images_in_flight() > 0),
    {
        match job {
            Job::Page(_) => self.frontier.in_flight_count() > 0,
            Job::Image(_) => self.images_in_flight > 0,
        }
    }

    /// Gives the image at `url` the file name to save it under; see
    /// `NameRegistry::claim`.
    pub fn claim_name(&mut self, url: &[u8]) -> (r: Claim)
        requires
            old(self).wf(),
        ensures
            final(self).wf(),
            final(self).frontier() == old(self).frontier(),
            final(self).images() == old(self).images(),
            final(self).images_popped() == old(self).images_popped(),
            final(self).images_in_flight() == old(self).images_in_flight(),
            final(self).recursive() == old(self).recursive(),
            final(self).downloaded() == old(self).downloaded(),
            final(self).failed() == old(self).failed(),
            old(self).names().sources().contains(url@) ==> r is Taken,
            !old(self).names().sources().contains(url@) ==> r is Fresh,
            !(r is Fresh) ==> final(self).names().names() == old(self).names().names()
                && final(self).names().sources() == old(self).names().sources(),
            r matches Claim::Fresh(n) ==> (exists|k: nat|
                n@ == candidate(file_name_of(url@), k) && forall|j: nat|
                    j < k ==> old(self).names().names().contains(
                        #[trigger] candidate(file_name_of(url@), j),
                    )) && final_name_ok(n@) && !old(self).names().names().contains(n@)
                && final(self).names().names() == old(self).names().names().push(n@)
                && final(self).names().sources() == old(self).names().sources().push(url@),
    {
        self.names.claim(url)
    }

    /// Stops admitting new pages and images; jobs already handed out finish.
    pub fn stop(&mut self)
        requires
            old(self).wf(),
        ensures
            final(self).wf(),
            final(self).frontier().is_stopped(),
            final(self).frontier().tasks() == old(self).frontier().tasks(),
            final(self).frontier().popped() == old(self).frontier().popped(),
            final(self).frontier().in_flight() == old(self).frontier().in_flight(),
            final(self).frontier().finished() == old(self).frontier().finished(),
            final(self).frontier().depth_limit() == old(self).frontier().depth_limit(),
            final(self).images() == old(self).images(),
            final(self).images_popped() == old(self).images_popped(),
            final(self).images_in_flight() == old(self).images_in_flight(),
            final(self).recursive() == old(self).recursive(),
            final(self).downloaded() == old(self).downloaded(),
            final(self).failed() == old(self).failed(),
    {
        self.frontier.stop();
    }

    /// Whether nothing is pending and no job is out.
    pub fn is_drained(&self) -> (r: bool)
        requires
            self.wf(),
        ensures
            r == (self.frontier().pending().len() == 0 && self.frontier().in_flight() == 0
                && self.images_popped() == self.images().len() && self.images_in_flight() == 0),
    {
        self.frontier.is_drained() && self.image_next >= self.images.len()
            && self.images_in_flight == 0
    }

    /// Pages visited, files saved and failures so far.
    pub fn report(&self) -> (r: Report)
        ensures
            r.pages_visited == self.frontier().finished(),
            r.downloaded == self.downloaded(),
            r.failed == self.failed(),
    {
        Report {
            pages_visited: self.frontier.finished_count(),
            downloaded: self.downloaded,
            failed: self.failed,
        }
    }

    /// Without recursion exactly one page is ever admitted: the root. So a
    /// drained crawl has visited exactly one page.
    pub proof fn lemma_single_page_without_recursion(&self)
        requires
            self.wf(),
            !self.recursive(),
        ensures
            self.frontier().admissions() == 1,
            self.frontier().popped() <= 1,
            self.frontier().pending().len() == 0 && self.frontier().in_flight() == 0
                ==> self.frontier().finished() == 1,
    {
        self.frontier.lemma_counts();
    }
}

/// Whether completing `job` with `outcome` admits the page's links.
pub open spec fn children_admitted(c: Crawl, job: &Job, outcome: Outcome) -> bool {
    &&& job is Page
    &&& outcome is Html
    &&& !c.frontier().is_stopped()
    &&& c.recursive()
    &&& job->Page_0.depth < c.frontier().depth_limit()
}

/// Whether completing `job` with `outcome` schedules the page's images.
pub open spec fn images_admitted(c: Crawl, job: &Job, outcome: Outcome) -> bool {
    &&& job is Page
    &&& outcome is Html
    &&& !c.frontier().is_stopped()
}

} // verus!

//! File names for downloaded images: each derived from the last path segment
//! of its URL, numbered where another URL already holds the name, and written
//! first under a temporary name that no final name can equal.
use vstd::prelude::*;
use crate::bytes::{
    append, contains_bytes, copy_range, find_first_of, first_of, is_alpha, is_digit, views, DASH,
    DOT, HASH, QUESTION, UNDERSCORE,
};
use crate::url::{last_slash, slash_end};
use vstd::arithmetic::div_mod::lemma_fundamental_div_mod;
use vstd::seq_lib::seq_to_set_is_finite;
use vstd::set_lib::lemma_len_subset;

verus! {

pub open spec fn is_name_byte(b: u8) -> bool {
    is_alpha(b) || is_digit(b) || b == DOT || b == DASH || b == UNDERSCORE
}

/// A name a downloaded file may end up under: not empty, not hidden, and made
/// of letters, digits, `.`, `-` and `_` only.
pub open spec fn final_name_ok(n: Seq<u8>) -> bool {
    n.len() > 0 && n[0] != DOT && forall|i: int| 0 <= i < n.len() ==> #[trigger] is_name_byte(n[i])
}

pub open spec fn safe_byte(i: int, b: u8) -> u8 {
    if (i == 0 && b == DOT) || !is_name_byte(b) {
        UNDERSCORE
    } else {
        b
    }
}

/// Each byte that may not stand in a file name, and a leading `.`, become `_`.
pub open spec fn sanitize(s: Seq<u8>) -> Seq<u8> {
    Seq::new(s.len(), |i: int| safe_byte(i, s[i]))
}

pub open spec fn default_name() -> Seq<u8> {
    seq![105u8, 109u8, 97u8, 103u8, 101u8]
}

/// The last segment of the path of `u`, without query or fragment.
pub open spec fn last_segment(u: Seq<u8>) -> Seq<u8> {
    let p = u.subrange(0, first_of(u, 0, seq![QUESTION, HASH]));
    p.subrange(last_slash(p) + 1, p.len() as int)
}

/// The file name derived from the URL `u`.
pub open spec fn file_name_of(u: Seq<u8>) -> Seq<u8> {
    if last_segment(u).len() == 0 {
        default_name()
    } else {
        sanitize(last_segment(u))
    }
}

/// The index of the last `.` in `s`, or -1.
pub open spec fn last_dot(s: Seq<u8>) -> int
    decreases s.len(),
{
    if s.len() == 0 {
        -1
    } else if s.last() == DOT {
        s.len() - 1
    } else {
        last_dot(s.drop_last())
    }
}

/// Where a number is put into `name`: before its extension, if it has one.
pub open spec fn cut_of(name: Seq<u8>) -> int {
    if last_dot(name) > 0 {
        last_dot(name)
    } else {
        name.len() as int
    }
}

/// The decimal digits of `k`.
pub open spec fn decimal(k: nat) -> Seq<u8>
    decreases k,
{
    if k < 10 {
        seq![(48 + k) as u8]
    } else {
        decimal(k / 10).push((48 + k % 10) as u8)
    }
}

/// The `k`-th name tried for `name`: `name` itself, then `stem-k.ext`.
pub open spec fn candidate(name: Seq<u8>, k: nat) -> Seq<u8> {
    if k == 0 {
        name
    } else {
        name.subrange(0, cut_of(name)) + seq![DASH] + decimal(k) + name.subrange(
            cut_of(name),
            name.len() as int,
        )
    }
}

pub open spec fn temp_suffix() -> Seq<u8> {
    seq![DOT, 112u8, 97u8, 114u8, 116u8]
}

/// The name a file is written under before it is renamed to `name`.
pub open spec fn temp_name_of(name: Seq<u8>) -> Seq<u8> {
    seq![DOT] + name + temp_suffix()
}

pub proof fn lemma_decimal_digits(k: nat)
    ensures
        decimal(k).len() > 0,
        forall|i: int| 0 <= i < decimal(k).len() ==> #[trigger] is_digit(decimal(k)[i]),
    decreases k,
{
    if k >= 10 {
        lemma_decimal_digits(k / 10);
    }
}

pub proof fn lemma_last_dot_bounds(s: Seq<u8>)
    ensures
        -1 <= last_dot(s) < s.len(),
    decreases s.len(),
{
    if s.len() > 0 && s.last() != DOT {
        lemma_last_dot_bounds(s.drop_last());
    }
}

/// Distinct numbers have distinct decimal digits.
pub proof fn lemma_decimal_injective(a: nat, b: nat)
    requires
        decimal(a) == decimal(b),
    ensures
        a == b,
    decreases a,
{
    lemma_decimal_digits(a);
    lemma_decimal_digits(b);
    if a < 10 && b < 10 {
        assert(decimal(a)[0] == (48 + a) as u8);
        assert(decimal(b)[0] == (48 + b) as u8);
    } else if a < 10 {
        lemma_decimal_digits(b / 10);
        assert(decimal(b).len() >= 2);
    } else if b < 10 {
        lemma_decimal_digits(a / 10);
        assert(decimal(a).len() >= 2);
    } else {
        assert(decimal(a).drop_last() =~= decimal(a / 10));
        assert(decimal(b).drop_last() =~= decimal(b / 10));
        lemma_decimal_injective(a / 10, b / 10);
        assert(decimal(a).last() == decimal(b).last());
        assert(decimal(a).last() == (48 + a % 10) as u8);
        assert(decimal(b).last() == (48 + b % 10) as u8);
        assert(a % 10 == b % 10);
        lemma_fundamental_div_mod(a as int, 10);
        lemma_fundamental_div_mod(b as int, 10);
        assert(a as int == 10 * (a as int / 10) + a as int % 10);
        assert(b as int == 10 * (b as int / 10) + b as int % 10);
    }
}

/// Distinct numbers give distinct candidate names.
pub proof fn lemma_candidate_injective(name: Seq<u8>, a: nat, b: nat)
    requires
        candidate(name, a) == candidate(name, b),
    ensures
        a == b,
{
    lemma_last_dot_bounds(name);
    let c = cut_of(name);
    if a > 0 {
        lemma_decimal_digits(a);
        assert(candidate(name, a).len() == name.len() + 1 + decimal(a).len());
    }
    if b > 0 {
        lemma_decimal_digits(b);
        assert(candidate(name, b).len() == name.len() + 1 + decimal(b).len());
    }
    if a > 0 && b > 0 {
        let p = c + 1;
        assert(candidate(name, a).subrange(p, p + decimal(a).len()) =~= decimal(a));
        assert(candidate(name, b).subrange(p, p + decimal(b).len()) =~= decimal(b));
        lemma_decimal_injective(a, b);
    }
}

/// Of the first `names.len() + 1` candidates for `name`, one is not among `names`.
pub proof fn lemma_some_candidate_free(names: Seq<Seq<u8>>, name: Seq<u8>)
    requires
        names.no_duplicates(),
    ensures
        exists|k: nat| k <= names.len() && !names.contains(#[trigger] candidate(name, k)),
{
    if forall|k: nat| k <= names.len() ==> names.contains(#[trigger] candidate(name, k)) {
        let cs = Seq::new(names.len() + 1, |i: int| candidate(name, i as nat));
        assert(cs.no_duplicates()) by {
            assert forall|a: int, b: int| 0 <= a < b < cs.len() implies cs[a] != cs[b] by {
                if cs[a] == cs[b] {
                    lemma_candidate_injective(name, a as nat, b as nat);
                }
            }
        }
        cs.unique_seq_to_set();
        names.unique_seq_to_set();
        assert(cs.to_set().subset_of(names.to_set())) by {
            assert forall|x: Seq<u8>| cs.to_set().contains(x) implies names.to_set().contains(x) by {
                let i = choose|i: int| 0 <= i < cs.len() && cs[i] == x;
                assert(names.contains(candidate(name, i as nat)));
            }
        }
        seq_to_set_is_finite(names);
        lemma_len_subset(cs.to_set(), names.to_set());
    }
}

/// Every derived name is a valid final name.
pub proof fn lemma_file_name_ok(u: Seq<u8>)
    ensures
        final_name_ok(file_name_of(u)),
{
    if last_segment(u).len() == 0 {
        assert(final_name_ok(default_name()));
    } else {
        let s = sanitize(last_segment(u));
        assert forall|i: int| 0 <= i < s.len() implies #[trigger] is_name_byte(s[i]) by {}
    }
}

/// Numbering a valid final name keeps it valid.
pub proof fn lemma_candidate_ok(name: Seq<u8>, k: nat)
    requires
        final_name_ok(name),
    ensures
        final_name_ok(candidate(name, k)),
{
    if k > 0 {
        lemma_decimal_digits(k);
        lemma_last_dot_bounds(name);
        let c = cut_of(name);
        let stem = name.subrange(0, c);
        let ext = name.subrange(c, name.len() as int);
        let r = candidate(name, k);
        assert(r == stem + seq![DASH] + decimal(k) + ext);
        assert forall|i: int| 0 <= i < r.len() implies #[trigger] is_name_byte(r[i]) by {
            if i < stem.len() {
                assert(r[i] == name[i]);
            } else if i == stem.len() {
            } else if i < stem.len() + 1 + decimal(k).len() {
                assert(r[i] == decimal(k)[i - stem.len() - 1]);
            } else {
                assert(r[i] == name[i - 1 - decimal(k).len()]);
            }
        }
        assert(r[0] == name[0]);
    }
}

/// A temporary name is never a valid final name, so a file being written can
/// never be taken for a finished one.
pub proof fn lemma_temp_never_final(name: Seq<u8>)
    ensures
        !final_name_ok(temp_name_of(name)),
{
    assert(temp_name_of(name)[0] == DOT);
}

/// The file name derived from the URL `url`.
pub fn file_name(url: &[u8]) -> (r: Vec<u8>)
    ensures
        r@ == file_name_of(url@),
        final_name_ok(r@),
{
    proof {
        lemma_file_name_ok(url@);
    }
    let stops: Vec<u8> = vec![QUESTION, HASH];
    assert(stops@ =~= seq![QUESTION, HASH]);
    let end = find_first_of(url, 0, stops.as_slice());
    let p = copy_range(url, 0, end, false);
    let start = slash_end(p.as_slice());
    let seg = copy_range(p.as_slice(), start, p.len(), false);
    if seg.len() == 0 {
        let d: Vec<u8> = vec![105u8, 109u8, 97u8, 103u8, 101u8];
        assert(d@ =~= default_name());
        return d;
    }
    let mut out: Vec<u8> = Vec::new();
    let mut i: usize = 0;
    while i < seg.len()
        invariant
            i <= seg@.len(),
            out@ =~= sanitize(seg@).subrange(0, i as int),
        decreases seg@.len() - i,
    {
        let b = seg[i];
        let keep = (65 <= b && b <= 90) || (97 <= b && b <= 122) || (48 <= b && b <= 57) || b == DOT
            || b == DASH || b == UNDERSCORE;
        if (i == 0 && b == DOT) || !keep {
            out.push(UNDERSCORE);
        } else {
            out.push(b);
        }
        i = i + 1;
    }
    out
}

/// The decimal digits of `k`.
pub fn decimal_digits(k: u64) -> (r: Vec<u8>)
    ensures
        r@ == decimal(k as nat),
    decreases k,
{
    if k < 10 {
        let r: Vec<u8> = vec![(48 + k) as u8];
        assert(r@ =~= decimal(k as nat));
        r
    } else {
        let mut r = decimal_digits(k / 10);
        r.push((48 + k % 10) as u8);
        r
    }
}

fn dot_cut(name: &[u8]) -> (r: usize)
    ensures
        r == cut_of(name@),
        r <= name@.len(),
{
    proof {
        lemma_last_dot_bounds(name@);
    }
    let mut i: usize = name.len();
    assert(name@.subrange(0, i as int) =~= name@);
    while i > 0 && name[i - 1] != DOT
        invariant
            i <= name@.len(),
            last_dot(name@) == last_dot(name@.subrange(0, i as int)),
        decreases i,
    {
        assert(name@.subrange(0, i as int).drop_last() =~= name@.subrange(0, i - 1));
        i = i - 1;
    }
    if i > 1 {
        i - 1
    } else {
        name.len()
    }
}

/// The `k`-th name tried for `name`.
pub fn candidate_name(name: &[u8], k: u64) -> (r: Vec<u8>)
    ensures
        r@ == candidate(name@, k as nat),
{
    if k == 0 {
        let r = copy_range(name, 0, name.len(), false);
        assert(name@.subrange(0, name@.len() as int) =~= name@);
        return r;
    }
    let c = dot_cut(name);
    let mut r = copy_range(name, 0, c, false);
    r.push(DASH);
    let digits = decimal_digits(k);
    append(&mut r, digits.as_slice());
    let ext = copy_range(name, c, name.len(), false);
    append(&mut r, ext.as_slice());
    assert(r@ =~= candidate(name@, k as nat));
    r
}

/// The temporary name for `name`: `.name.part`.
pub fn temp_name(name: &[u8]) -> (r: Vec<u8>)
    ensures
        r@ == temp_name_of(name@),
        !final_name_ok(r@),
{
    proof {
        lemma_temp_never_final(name@);
    }
    let mut r: Vec<u8> = vec![DOT];
    append(&mut r, name);
    let suffix: Vec<u8> = vec![DOT, 112u8, 97u8, 114u8, 116u8];
    append(&mut r, suffix.as_slice());
    assert(r@ =~= temp_name_of(name@));
    r
}

/// The answer of `NameRegistry::claim`.
pub enum Claim {
    /// The URL already has a name: it need not be saved again.
    Taken,
    /// The name the URL's file is to be saved under.
    Fresh(Vec<u8>),
}

/// The names given out in one crawl, each to one source URL.
pub struct NameRegistry {
    urls: Vec<Vec<u8>>,
    names: Vec<Vec<u8>>,
}

impl NameRegistry {
    /// The source URLs, in the order they were named.
    pub closed spec fn sources(&self) -> Seq<Seq<u8>> {
        views(self.urls@)
    }

    /// The names given, `names()[i]` to `sources()[i]`.
    pub closed spec fn names(&self) -> Seq<Seq<u8>> {
        views(self.names@)
    }

    pub closed spec fn wf(&self) -> bool {
        &&& self.urls@.len() == self.names@.len()
        &&& views(self.urls@).no_duplicates()
        &&& views(self.names@).no_duplicates()
        &&& forall|i: int| 0 <= i < self.names@.len() ==> #[trigger] final_name_ok(self.names@[i]@)
    }

    pub fn new() -> (r: NameRegistry)
        ensures
            r.wf(),
            r.sources() == Seq::<Seq<u8>>::empty(),
            r.names() == Seq::<Seq<u8>>::empty(),
    {
        let r = NameRegistry { urls: Vec::new(), names: Vec::new() };
        assert(r.sources() =~= Seq::<Seq<u8>>::empty());
        assert(r.names() =~= Seq::<Seq<u8>>::empty());
        r
    }

    /// Gives `url` a name: `Taken` where it has one already; else the first
    /// candidate for its derived file name that no other URL holds.
    pub fn claim(&mut self, url: &[u8]) -> (r: Claim)
        requires
            old(self).wf(),
        ensures
            final(self).wf(),
            old(self).sources().contains(url@) ==> r is Taken && final(self).sources() == old(
                self,
            ).sources() && final(self).names() == old(self).names(),
            !old(self).sources().contains(url@) ==> r is Fresh,
            r matches Claim::Fresh(n) ==> {
                &&& exists|k: nat|
                    n@ == candidate(file_name_of(url@), k) && forall|j: nat|
                        j < k ==> old(self).names().contains(#[trigger] candidate(file_name_of(url@), j))
                &&& !old(self).names().contains(n@)
                &&& final_name_ok(n@)
                &&& final(self).sources() == old(self).sources().push(url@)
                &&& final(self).names() == old(self).names().push(n@)
            },
    {
        if contains_bytes(&self.urls, url) {
            return Claim::Taken;
        }
        let base = file_name(url);
        let n = self.names.len();
        let mut k: usize = 0;
        proof {
            lemma_some_candidate_free(views(self.names@), base@);
        }
        loop
            invariant
                exists|f: nat|
                    k <= f <= n && !views(self.names@).contains(#[trigger] candidate(base@, f)),
                self.wf(),
                *self == *old(self),
                !views(self.urls@).contains(url@),
                n == self.names@.len(),
                base@ == file_name_of(url@),
                forall|j: nat| j < k ==> views(self.names@).contains(#[trigger] candidate(base@, j)),
            decreases n + 1 - k,
        {
            let cand = candidate_name(base.as_slice(), k as u64);
            if !contains_bytes(&self.names, cand.as_slice()) {
                proof {
                    lemma_file_name_ok(url@);
                    lemma_candidate_ok(base@, k as nat);
                }
                let ghost old_urls = views(self.urls@);
                let ghost old_names = views(self.names@);
                let ghost cv = cand@;
                let kept = copy_range(cand.as_slice(), 0, cand.len(), false);
                assert(cand@.subrange(0, cand@.len() as int) =~= cand@);
                self.names.push(kept);
                self.urls.push(copy_range(url, 0, url.len(), false));
                assert(url@.subrange(0, url@.len() as int) =~= url@);
                assert(views(self.names@) =~= old_names.push(cv));
                assert(views(self.urls@) =~= old_urls.push(url@));
                assert(views(self.names@).no_duplicates()) by {
                    assert forall|a: int, b: int|
                        0 <= a < b < views(self.names@).len() implies views(self.names@)[a]
                        != views(self.names@)[b] by {
                        if b == views(self.names@).len() - 1 {
                            assert(old_names[a] == views(self.names@)[a]);
                            assert(old_names.contains(old_names[a]));
                        }
                    }
                }
                assert(views(self.urls@).no_duplicates()) by {
                    assert forall|a: int, b: int|
                        0 <= a < b < views(self.urls@).len() implies views(self.urls@)[a]
                        != views(self.urls@)[b] by {
                        if b == views(self.urls@).len() - 1 {
                            assert(old_urls[a] == views(self.urls@)[a]);
                            assert(old_urls.contains(old_urls[a]));
                        }
                    }
                }
                assert forall|i: int| 0 <= i < self.names@.len() implies #[trigger] final_name_ok(
                    self.names@[i]@,
                ) by {
                    if i < old_names.len() {
                        assert(self.names@[i]@ == views(self.names@)[i]);
                    } else {
                        assert(self.names@[i]@ == views(self.names@)[i]);
                    }
                }
                assert(cv == candidate(file_name_of(url@), k as nat));
                return Claim::Fresh(cand);
            }
            k = k + 1;
        }
    }

    /// Two distinct source URLs never share a name, so neither file is lost to
    /// the other.
    pub proof fn lemma_distinct_sources_distinct_names(&self, a: int, b: int)
        requires
            self.wf(),
            0 <= a < self.sources().len(),
            0 <= b < self.sources().len(),
            self.sources()[a] != self.sources()[b],
        ensures
            self.names()[a] != self.names()[b],
            final_name_ok(self.names()[a]),
            final_name_ok(self.names()[b]),
    {
        assert(self.names()[a] == self.names@[a]@);
        assert(self.names()[b] == self.names@[b]@);
    }

    /// A file being written under a temporary name never has the name of a
    /// file already given out, so an interrupted write cannot clobber or pass
    /// for a finished download.
    pub proof fn lemma_temp_names_never_collide(&self, name: Seq<u8>)
        requires
            self.wf(),
        ensures
            !self.names().contains(temp_name_of(name)),
    {
        lemma_temp_never_final(name);
        if self.names().contains(temp_name_of(name)) {
            let k = choose|k: int| 0 <= k < self.names().len() && self.names()[k] == temp_name_of(name);
            assert(self.names@[k]@ == self.names()[k]);
            assert(final_name_ok(self.names@[k]@));
        }
    }
}

} // verus!

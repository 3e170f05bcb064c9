//! URL normalization: resolving a reference against a base and reducing the
//! result to a canonical key (lowercase scheme and host, dot segments removed,
//! fragment dropped, query kept).
use vstd::prelude::*;
use crate::bytes::{
    append, copy_range, find_first_of, first_of, has_prefix, is_alpha, is_digit, lower, same_bytes,
    starts_with, views, COLON, DASH, DOT, HASH, QUESTION, SLASH,
};

verus! {

/// Why a reference could not be turned into a crawlable URL.
#[derive(Clone, Copy, Debug, PartialEq, Eq, Structural)]
pub enum UrlError {
    /// No scheme, no `//` after it, or an empty host.
    Malformed,
    /// A scheme other than `http` or `https`.
    UnsupportedScheme,
}

/// The four parts of an absolute URL: scheme, authority, path and query
/// (the query with its leading `?`, or empty).
pub type SpecParts = (Seq<u8>, Seq<u8>, Seq<u8>, Seq<u8>);

pub open spec fn is_scheme_byte(b: u8) -> bool {
    is_alpha(b) || is_digit(b) || b == 43 || b == DASH || b == DOT
}

/// The end of the run of scheme bytes that starts at `i`.
pub open spec fn scheme_span(s: Seq<u8>, i: int) -> int
    decreases s.len() - i,
{
    if 0 <= i < s.len() && is_scheme_byte(s[i]) {
        scheme_span(s, i + 1)
    } else {
        i
    }
}

/// Whether `s` starts with a scheme followed by `:`.
pub open spec fn has_scheme(s: Seq<u8>) -> bool {
    s.len() > 0 && is_alpha(s[0]) && scheme_span(s, 0) < s.len() && s[scheme_span(s, 0)] == COLON
}

pub open spec fn http_seq() -> Seq<u8> {
    seq![104u8, 116u8, 116u8, 112u8]
}

pub open spec fn https_seq() -> Seq<u8> {
    seq![104u8, 116u8, 116u8, 112u8, 115u8]
}

pub open spec fn two_slashes() -> Seq<u8> {
    seq![SLASH, SLASH]
}

/// Splits an absolute `http` or `https` URL into its parts; the fragment is dropped.
pub open spec fn parse_abs(s: Seq<u8>) -> Result<SpecParts, UrlError> {
    if !has_scheme(s) {
        Err(UrlError::Malformed)
    } else {
        let k = scheme_span(s, 0);
        let scheme = lower(s.subrange(0, k));
        if scheme != http_seq() && scheme != https_seq() {
            Err(UrlError::UnsupportedScheme)
        } else if !starts_with(s.subrange(k + 1, s.len() as int), two_slashes()) {
            Err(UrlError::Malformed)
        } else {
            let host_start = k + 3;
            let host_end = first_of(s, host_start, seq![SLASH, QUESTION, HASH]);
            if host_end == host_start {
                Err(UrlError::Malformed)
            } else {
                let path_end = first_of(s, host_end, seq![QUESTION, HASH]);
                let query_end = first_of(s, path_end, seq![HASH]);
                let path = if path_end == host_end { seq![SLASH] } else { s.subrange(host_end, path_end) };
                Ok((scheme, lower(s.subrange(host_start, host_end)), path, s.subrange(path_end, query_end)))
            }
        }
    }
}

/// The index of the last `/` in `s`, or -1.
pub open spec fn last_slash(s: Seq<u8>) -> int
    decreases s.len(),
{
    if s.len() == 0 {
        -1
    } else if s.last() == SLASH {
        s.len() - 1
    } else {
        last_slash(s.drop_last())
    }
}

/// A relative path put in place of the last segment of the base path.
pub open spec fn merge(base_path: Seq<u8>, rel: Seq<u8>) -> Seq<u8> {
    base_path.subrange(0, last_slash(base_path) + 1) + rel
}

/// The parts of `reference` resolved against the absolute URL `base`.
pub open spec fn resolve(base: Seq<u8>, reference: Seq<u8>) -> Result<SpecParts, UrlError> {
    match parse_abs(base) {
        Err(e) => Err(e),
        Ok(b) => {
            let r = reference.subrange(0, first_of(reference, 0, seq![HASH]));
            let q = first_of(r, 0, seq![QUESTION]);
            if has_scheme(r) {
                parse_abs(r)
            } else if starts_with(r, two_slashes()) {
                parse_abs(b.0 + seq![COLON] + r)
            } else if r.len() == 0 {
                Ok(b)
            } else if r[0] == SLASH {
                Ok((b.0, b.1, r.subrange(0, q), r.subrange(q, r.len() as int)))
            } else if r[0] == QUESTION {
                Ok((b.0, b.1, b.2, r))
            } else {
                Ok((b.0, b.1, merge(b.2, r.subrange(0, q)), r.subrange(q, r.len() as int)))
            }
        }
    }
}

/// The segments of a path (without its leading `/`) read so far, and the one being read.
pub open spec fn split_state(s: Seq<u8>) -> (Seq<Seq<u8>>, Seq<u8>)
    decreases s.len(),
{
    if s.len() == 0 {
        (seq![], seq![])
    } else {
        let (done, cur) = split_state(s.drop_last());
        if s.last() == SLASH {
            (done.push(cur), seq![])
        } else {
            (done, cur.push(s.last()))
        }
    }
}

/// The `/`-separated segments of `s`.
pub open spec fn segments(s: Seq<u8>) -> Seq<Seq<u8>> {
    split_state(s).0.push(split_state(s).1)
}

pub open spec fn is_dot(seg: Seq<u8>) -> bool {
    seg == seq![DOT]
}

pub open spec fn is_dot_dot(seg: Seq<u8>) -> bool {
    seg == seq![DOT, DOT]
}

/// Segments with each `.` dropped and each `..` taking away the segment before it.
pub open spec fn drop_dots(segs: Seq<Seq<u8>>) -> Seq<Seq<u8>>
    decreases segs.len(),
{
    if segs.len() == 0 {
        seq![]
    } else {
        let prev = drop_dots(segs.drop_last());
        let l = segs.last();
        if is_dot(l) {
            prev
        } else if is_dot_dot(l) {
            if prev.len() > 0 { prev.drop_last() } else { prev }
        } else {
            prev.push(l)
        }
    }
}

/// `drop_dots`, keeping a trailing `/` where the path ended in a dot segment.
pub open spec fn clean_segments(segs: Seq<Seq<u8>>) -> Seq<Seq<u8>> {
    if segs.len() > 0 && (is_dot(segs.last()) || is_dot_dot(segs.last())) {
        drop_dots(segs).push(seq![])
    } else {
        drop_dots(segs)
    }
}

/// Each segment preceded by `/`.
pub open spec fn join(segs: Seq<Seq<u8>>) -> Seq<u8>
    decreases segs.len(),
{
    if segs.len() == 0 {
        seq![]
    } else {
        join(segs.drop_last()) + seq![SLASH] + segs.last()
    }
}

/// A path starting with `/` with its dot segments removed.
pub open spec fn clean_path(p: Seq<u8>) -> Seq<u8> {
    if p.len() > 0 && p[0] == SLASH {
        join(clean_segments(segments(p.drop_first())))
    } else {
        p
    }
}

/// The canonical key of the parts of a URL.
pub open spec fn key_of(p: SpecParts) -> Seq<u8> {
    p.0 + seq![COLON, SLASH, SLASH] + p.1 + clean_path(p.2) + p.3
}

/// The canonical key of `reference` resolved against `base`.
pub open spec fn normalized(base: Seq<u8>, reference: Seq<u8>) -> Result<Seq<u8>, UrlError> {
    match resolve(base, reference) {
        Ok(p) => Ok(key_of(p)),
        Err(e) => Err(e),
    }
}

/// An absolute URL split into its parts.
pub struct Parts {
    pub scheme: Vec<u8>,
    pub authority: Vec<u8>,
    pub path: Vec<u8>,
    pub query: Vec<u8>,
}

impl View for Parts {
    type V = SpecParts;

    open spec fn view(&self) -> SpecParts {
        (self.scheme@, self.authority@, self.path@, self.query@)
    }
}

pub open spec fn parts_result(r: Result<Parts, UrlError>) -> Result<SpecParts, UrlError> {
    match r {
        Ok(p) => Ok(p@),
        Err(e) => Err(e),
    }
}

fn scheme_end(s: &[u8]) -> (r: usize)
    ensures
        r == scheme_span(s@, 0),
        r <= s@.len(),
{
    let mut i: usize = 0;
    while i < s.len()
        invariant
            i <= s@.len(),
            scheme_span(s@, 0) == scheme_span(s@, i as int),
        decreases s@.len() - i,
    {
        let c = s[i];
        let ok = (65 <= c && c <= 90) || (97 <= c && c <= 122) || (48 <= c && c <= 57) || c == 43
            || c == DASH || c == DOT;
        if !ok {
            return i;
        }
        i = i + 1;
    }
    i
}

fn starts_with_scheme(s: &[u8]) -> (r: bool)
    ensures
        r == has_scheme(s@),
{
    if s.len() == 0 {
        return false;
    }
    let c = s[0];
    if !((65 <= c && c <= 90) || (97 <= c && c <= 122)) {
        return false;
    }
    let k = scheme_end(s);
    k < s.len() && s[k] == COLON
}

/// Splits an absolute `http` or `https` URL into its parts.
pub fn parse(s: &[u8]) -> (r: Result<Parts, UrlError>)
    ensures
        parts_result(r) == parse_abs(s@),
{
    if !starts_with_scheme(s) {
        return Err(UrlError::Malformed);
    }
    let k = scheme_end(s);
    let scheme = copy_range(s, 0, k, true);
    let http: Vec<u8> = vec![104u8, 116u8, 116u8, 112u8];
    let https: Vec<u8> = vec![104u8, 116u8, 116u8, 112u8, 115u8];
    assert(http@ =~= http_seq());
    assert(https@ =~= https_seq());
    if !same_bytes(scheme.as_slice(), http.as_slice()) && !same_bytes(scheme.as_slice(), https.as_slice()) {
        return Err(UrlError::UnsupportedScheme);
    }
    let ghost rest = s@.subrange(k + 1, s@.len() as int);
    if !(k + 2 < s.len() && s[k + 1] == SLASH && s[k + 2] == SLASH) {
        assert(!starts_with(rest, two_slashes())) by {
            if starts_with(rest, two_slashes()) {
                assert(rest.subrange(0, 2)[0] == SLASH);
                assert(rest.subrange(0, 2)[1] == SLASH);
            }
        }
        return Err(UrlError::Malformed);
    }
    assert(rest.subrange(0, 2) =~= two_slashes());
    let host_start = k + 3;
    let stops1: Vec<u8> = vec![SLASH, QUESTION, HASH];
    let stops2: Vec<u8> = vec![QUESTION, HASH];
    let stops3: Vec<u8> = vec![HASH];
    assert(stops1@ =~= seq![SLASH, QUESTION, HASH]);
    assert(stops2@ =~= seq![QUESTION, HASH]);
    assert(stops3@ =~= seq![HASH]);
    let host_end = find_first_of(s, host_start, stops1.as_slice());
    if host_end == host_start {
        return Err(UrlError::Malformed);
    }
    let path_end = find_first_of(s, host_end, stops2.as_slice());
    let query_end = find_first_of(s, path_end, stops3.as_slice());
    let path = if path_end == host_end {
        let v: Vec<u8> = vec![SLASH];
        assert(v@ =~= seq![SLASH]);
        v
    } else {
        copy_range(s, host_end, path_end, false)
    };
    let r = Parts {
        scheme,
        authority: copy_range(s, host_start, host_end, true),
        path,
        query: copy_range(s, path_end, query_end, false),
    };
    Ok(r)
}

fn split_path(p: &[u8], start: usize) -> (r: Vec<Vec<u8>>)
    requires
        start <= p@.len(),
    ensures
        views(r@) == segments(p@.subrange(start as int, p@.len() as int)),
{
    let mut done: Vec<Vec<u8>> = Vec::new();
    let mut cur: Vec<u8> = Vec::new();
    let mut i: usize = start;
    assert(p@.subrange(start as int, start as int) =~= Seq::<u8>::empty());
    assert(views(done@) =~= Seq::<Seq<u8>>::empty());
    while i < p.len()
        invariant
            start <= i <= p@.len(),
            (views(done@), cur@) == split_state(p@.subrange(start as int, i as int)),
        decreases p@.len() - i,
    {
        let c = p[i];
        assert(p@.subrange(start as int, i + 1).drop_last() =~= p@.subrange(start as int, i as int));
        if c == SLASH {
            let ghost old_done = done@;
            done.push(cur);
            assert(views(done@) =~= views(old_done).push(cur@));
            cur = Vec::new();
            assert(cur@ =~= Seq::<u8>::empty());
        } else {
            cur.push(c);
        }
        i = i + 1;
    }
    let ghost old_done = done@;
    done.push(cur);
    assert(views(done@) =~= views(old_done).push(cur@));
    done
}

fn seg_is_dot(seg: &Vec<u8>) -> (r: bool)
    ensures
        r == is_dot(seg@),
{
    let r = seg.len() == 1 && seg[0] == DOT;
    if r {
        assert(seg@ =~= seq![DOT]);
    }
    r
}

fn seg_is_dot_dot(seg: &Vec<u8>) -> (r: bool)
    ensures
        r == is_dot_dot(seg@),
{
    let r = seg.len() == 2 && seg[0] == DOT && seg[1] == DOT;
    if r {
        assert(seg@ =~= seq![DOT, DOT]);
    } else if seg.len() == 2 {
        assert(seg@ != seq![DOT, DOT]) by {
            if seg@ == seq![DOT, DOT] {
                assert(seg@[0] == DOT && seg@[1] == DOT);
            }
        }
    }
    r
}

fn clean_segs(segs: &Vec<Vec<u8>>) -> (r: Vec<Vec<u8>>)
    ensures
        views(r@) == clean_segments(views(segs@)),
{
    let mut out: Vec<Vec<u8>> = Vec::new();
    let mut i: usize = 0;
    assert(views(segs@).take(0) =~= Seq::<Seq<u8>>::empty());
    assert(views(out@) =~= Seq::<Seq<u8>>::empty());
    while i < segs.len()
        invariant
            i <= segs@.len(),
            views(out@) == drop_dots(views(segs@).take(i as int)),
        decreases segs@.len() - i,
    {
        let seg = &segs[i];
        assert(views(segs@).take(i + 1).drop_last() =~= views(segs@).take(i as int));
        assert(views(segs@).take(i + 1).last() == seg@);
        if seg_is_dot(seg) {
        } else if seg_is_dot_dot(seg) {
            if out.len() > 0 {
                let ghost old_out = out@;
                let _ = out.pop();
                assert(views(out@) =~= views(old_out).drop_last());
            }
        } else {
            let ghost old_out = out@;
            out.push(copy_range(seg.as_slice(), 0, seg.len(), false));
            assert(seg@.subrange(0, seg@.len() as int) =~= seg@);
            assert(views(out@) =~= views(old_out).push(seg@));
        }
        i = i + 1;
    }
    assert(views(segs@).take(segs@.len() as int) =~= views(segs@));
    if segs.len() > 0 && (seg_is_dot(&segs[segs.len() - 1]) || seg_is_dot_dot(&segs[segs.len() - 1])) {
        let ghost old_out = out@;
        out.push(Vec::new());
        assert(views(out@) =~= views(old_out).push(seq![]));
    }
    out
}

fn join_segs(segs: &Vec<Vec<u8>>) -> (r: Vec<u8>)
    ensures
        r@ == join(views(segs@)),
{
    let mut out: Vec<u8> = Vec::new();
    let mut i: usize = 0;
    assert(views(segs@).take(0) =~= Seq::<Seq<u8>>::empty());
    while i < segs.len()
        invariant
            i <= segs@.len(),
            out@ == join(views(segs@).take(i as int)),
        decreases segs@.len() - i,
    {
        assert(views(segs@).take(i + 1).drop_last() =~= views(segs@).take(i as int));
        assert(views(segs@).take(i + 1).last() == segs@[i as int]@);
        out.push(SLASH);
        append(&mut out, segs[i].as_slice());
        i = i + 1;
    }
    assert(views(segs@).take(segs@.len() as int) =~= views(segs@));
    out
}

fn clean(p: &[u8]) -> (r: Vec<u8>)
    ensures
        r@ == clean_path(p@),
{
    if p.len() > 0 && p[0] == SLASH {
        let segs = split_path(p, 1);
        assert(p@.drop_first() =~= p@.subrange(1, p@.len() as int));
        join_segs(&clean_segs(&segs))
    } else {
        let r = copy_range(p, 0, p.len(), false);
        assert(p@.subrange(0, p@.len() as int) =~= p@);
        r
    }
}

/// The canonical key of a parsed URL.
pub fn key(parts: &Parts) -> (r: Vec<u8>)
    ensures
        r@ == key_of(parts@),
{
    let mut out = copy_range(parts.scheme.as_slice(), 0, parts.scheme.len(), false);
    assert(parts.scheme@.subrange(0, parts.scheme@.len() as int) =~= parts.scheme@);
    let sep: Vec<u8> = vec![COLON, SLASH, SLASH];
    append(&mut out, sep.as_slice());
    append(&mut out, parts.authority.as_slice());
    let path = clean(parts.path.as_slice());
    append(&mut out, path.as_slice());
    append(&mut out, parts.query.as_slice());
    assert(out@ =~= key_of(parts@));
    out
}

/// One past the last `/` of `p`, or 0.
pub fn slash_end(p: &[u8]) -> (r: usize)
    ensures
        r == last_slash(p@) + 1,
        r <= p@.len(),
{
    let mut i: usize = p.len();
    assert(p@.subrange(0, i as int) =~= p@);
    while i > 0 && p[i - 1] != SLASH
        invariant
            i <= p@.len(),
            last_slash(p@) == last_slash(p@.subrange(0, i as int)),
        decreases i,
    {
        assert(p@.subrange(0, i as int).drop_last() =~= p@.subrange(0, i - 1));
        i = i - 1;
    }
    i
}

/// Resolves `reference` against the absolute URL `base` into parts.
pub fn resolve_parts(base: &[u8], reference: &[u8]) -> (r: Result<Parts, UrlError>)
    ensures
        parts_result(r) == resolve(base@, reference@),
{
    let b = match parse(base) {
        Ok(b) => b,
        Err(e) => return Err(e),
    };
    let hash_stop: Vec<u8> = vec![HASH];
    let query_stop: Vec<u8> = vec![QUESTION];
    assert(hash_stop@ =~= seq![HASH]);
    assert(query_stop@ =~= seq![QUESTION]);
    let f = find_first_of(reference, 0, hash_stop.as_slice());
    let r = copy_range(reference, 0, f, false);
    let q = find_first_of(r.as_slice(), 0, query_stop.as_slice());
    if starts_with_scheme(r.as_slice()) {
        return parse(r.as_slice());
    }
    let slashes: Vec<u8> = vec![SLASH, SLASH];
    assert(slashes@ =~= two_slashes());
    if has_prefix(r.as_slice(), slashes.as_slice()) {
        let mut full = b.scheme;
        full.push(COLON);
        append(&mut full, r.as_slice());
        assert(full@ =~= b@.0 + seq![COLON] + r@);
        return parse(full.as_slice());
    }
    if r.len() == 0 {
        return Ok(b);
    }
    if r[0] == SLASH {
        let path = copy_range(r.as_slice(), 0, q, false);
        let query = copy_range(r.as_slice(), q, r.len(), false);
        return Ok(Parts { scheme: b.scheme, authority: b.authority, path, query });
    }
    if r[0] == QUESTION {
        return Ok(Parts { scheme: b.scheme, authority: b.authority, path: b.path, query: r });
    }
    let e = slash_end(b.path.as_slice());
    let mut path = copy_range(b.path.as_slice(), 0, e, false);
    let rel = copy_range(r.as_slice(), 0, q, false);
    append(&mut path, rel.as_slice());
    let query = copy_range(r.as_slice(), q, r.len(), false);
    Ok(Parts { scheme: b.scheme, authority: b.authority, path, query })
}

/// Resolves `reference` against the absolute URL `base` and returns the
/// canonical key of the result: lowercase scheme and host, dot segments
/// removed, fragment dropped, query kept.
pub fn normalize(base: &[u8], reference: &[u8]) -> (r: Result<Vec<u8>, UrlError>)
    ensures
        match r {
            Ok(k) => normalized(base@, reference@) == Ok::<Seq<u8>, UrlError>(k@),
            Err(e) => normalized(base@, reference@) == Err::<Seq<u8>, UrlError>(e),
        },
{
    match resolve_parts(base, reference) {
        Ok(p) => Ok(key(&p)),
        Err(e) => Err(e),
    }
}

/// The canonical key of an absolute URL.
pub open spec fn canonical_key(s: Seq<u8>) -> Result<Seq<u8>, UrlError> {
    match parse_abs(s) {
        Ok(p) => Ok(key_of(p)),
        Err(e) => Err(e),
    }
}

/// The canonical key of the absolute `http` or `https` URL `url`.
pub fn canonical(url: &[u8]) -> (r: Result<Vec<u8>, UrlError>)
    ensures
        match r {
            Ok(k) => canonical_key(url@) == Ok::<Seq<u8>, UrlError>(k@),
            Err(e) => canonical_key(url@) == Err::<Seq<u8>, UrlError>(e),
        },
{
    match parse(url) {
        Ok(p) => Ok(key(&p)),
        Err(e) => Err(e),
    }
}

} // verus!

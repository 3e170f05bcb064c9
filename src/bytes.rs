//! Byte-string helpers shared by the URL, HTML and file-name code.
use vstd::prelude::*;

verus! {

pub const SLASH: u8 = 47;
pub const QUESTION: u8 = 63;
pub const HASH: u8 = 35;
pub const COLON: u8 = 58;
pub const DOT: u8 = 46;
pub const DASH: u8 = 45;
pub const UNDERSCORE: u8 = 95;
pub const DQUOTE: u8 = 34;
pub const SQUOTE: u8 = 39;
pub const EQUALS: u8 = 61;

/// Whether `b` is an ASCII uppercase letter.
pub open spec fn is_upper(b: u8) -> bool {
    65 <= b && b <= 90
}

/// Whether `b` is an ASCII letter.
pub open spec fn is_alpha(b: u8) -> bool {
    is_upper(b) || (97 <= b && b <= 122)
}

/// Whether `b` is an ASCII digit.
pub open spec fn is_digit(b: u8) -> bool {
    48 <= b && b <= 57
}

/// ASCII lowercase of one byte.
pub open spec fn lower_byte(b: u8) -> u8 {
    if is_upper(b) {
        (b + 32) as u8
    } else {
        b
    }
}

/// ASCII lowercase of a byte string.
pub open spec fn lower(s: Seq<u8>) -> Seq<u8> {
    s.map_values(|b: u8| lower_byte(b))
}

/// The first index at or after `i` whose byte is one of `stops`, or `s.len()`.
pub open spec fn first_of(s: Seq<u8>, i: int, stops: Seq<u8>) -> int
    decreases s.len() - i,
{
    if i < 0 || i >= s.len() {
        s.len() as int
    } else if stops.contains(s[i]) {
        i
    } else {
        first_of(s, i + 1, stops)
    }
}

/// Whether `s` begins with `p`.
pub open spec fn starts_with(s: Seq<u8>, p: Seq<u8>) -> bool {
    p.len() <= s.len() && s.subrange(0, p.len() as int) == p
}

pub fn to_lower_byte(b: u8) -> (r: u8)
    ensures
        r == lower_byte(b),
{
    if 65 <= b && b <= 90 {
        b + 32
    } else {
        b
    }
}

/// A copy of `s[a..b]`, lowercased when `fold` is set.
pub fn copy_range(s: &[u8], a: usize, b: usize, fold: bool) -> (r: Vec<u8>)
    requires
        a <= b <= s@.len(),
    ensures
        fold ==> r@ == lower(s@.subrange(a as int, b as int)),
        !fold ==> r@ == s@.subrange(a as int, b as int),
{
    let mut r: Vec<u8> = Vec::new();
    let mut i: usize = a;
    while i < b
        invariant
            a <= i <= b <= s@.len(),
            fold ==> r@ == lower(s@.subrange(a as int, i as int)),
            !fold ==> r@ == s@.subrange(a as int, i as int),
        decreases b - i,
    {
        let c = if fold { to_lower_byte(s[i]) } else { s[i] };
        r.push(c);
        i = i + 1;
        assert(r@ =~= if fold { lower(s@.subrange(a as int, i as int)) } else { s@.subrange(a as int, i as int) });
    }
    r
}

/// Appends `s` to `v`.
pub fn append(v: &mut Vec<u8>, s: &[u8])
    ensures
        final(v)@ == old(v)@ + s@,
{
    let mut i: usize = 0;
    while i < s.len()
        invariant
            i <= s@.len(),
            v@ == old(v)@ + s@.subrange(0, i as int),
        decreases s@.len() - i,
    {
        v.push(s[i]);
        i = i + 1;
        assert(v@ =~= old(v)@ + s@.subrange(0, i as int));
    }
    assert(s@.subrange(0, s@.len() as int) =~= s@);
}

/// The first index at or after `i` whose byte is one of `stops`, or `s.len()`.
pub fn find_first_of(s: &[u8], i: usize, stops: &[u8]) -> (r: usize)
    requires
        i <= s@.len(),
    ensures
        r == first_of(s@, i as int, stops@),
        i <= r <= s@.len(),
{
    let mut j: usize = i;
    while j < s.len()
        invariant
            i <= j <= s@.len(),
            first_of(s@, i as int, stops@) == first_of(s@, j as int, stops@),
        decreases s@.len() - j,
    {
        let mut k: usize = 0;
        let mut hit = false;
        while k < stops.len()
            invariant
                k <= stops@.len(),
                j < s@.len(),
                hit == exists|m: int| 0 <= m < k && stops@[m] == s@[j as int],
            decreases stops@.len() - k,
        {
            if stops[k] == s[j] {
                hit = true;
            }
            k = k + 1;
        }
        if hit {
            return j;
        }
        j = j + 1;
    }
    j
}

/// Whether `s` begins with `p`.
pub fn has_prefix(s: &[u8], p: &[u8]) -> (r: bool)
    ensures
        r == starts_with(s@, p@),
{
    if p.len() > s.len() {
        return false;
    }
    let mut i: usize = 0;
    while i < p.len()
        invariant
            p@.len() <= s@.len(),
            i <= p@.len(),
            forall|k: int| 0 <= k < i ==> s@[k] == p@[k],
        decreases p@.len() - i,
    {
        if s[i] != p[i] {
            assert(s@.subrange(0, p@.len() as int)[i as int] != p@[i as int]);
            return false;
        }
        i = i + 1;
    }
    assert(s@.subrange(0, p@.len() as int) =~= p@);
    true
}

/// Whether `a` and `b` hold the same bytes.
pub fn same_bytes(a: &[u8], b: &[u8]) -> (r: bool)
    ensures
        r == (a@ == b@),
{
    if a.len() != b.len() {
        return false;
    }
    let r = has_prefix(a, b);
    assert(a@.subrange(0, b@.len() as int) =~= a@);
    r
}

/// The byte strings held by a vector of byte vectors.
pub open spec fn views(v: Seq<Vec<u8>>) -> Seq<Seq<u8>> {
    v.map_values(|x: Vec<u8>| x@)
}

/// Whether `v` holds a byte string equal to `x`.
pub fn contains_bytes(v: &Vec<Vec<u8>>, x: &[u8]) -> (r: bool)
    ensures
        r == views(v@).contains(x@),
{
    let mut i: usize = 0;
    while i < v.len()
        invariant
            i <= v@.len(),
            forall|k: int| 0 <= k < i ==> v@[k]@ != x@,
        decreases v@.len() - i,
    {
        if same_bytes(v[i].as_slice(), x) {
            assert(views(v@)[i as int] == x@);
            return true;
        }
        i = i + 1;
    }
    assert(!views(v@).contains(x@)) by {
        if views(v@).contains(x@) {
            let k = choose|k: int| 0 <= k < views(v@).len() && views(v@)[k] == x@;
            assert(v@[k]@ == x@);
        }
    }
    false
}

/// What a sequence holds after a push.
pub proof fn lemma_push_contains(s: Seq<Seq<u8>>, x: Seq<u8>)
    ensures
        forall|y: Seq<u8>| #[trigger] s.push(x).contains(y) <==> (s.contains(y) || y == x),
{
    assert forall|y: Seq<u8>| #[trigger] s.push(x).contains(y) <==> (s.contains(y) || y == x) by {
        if s.push(x).contains(y) {
            let k = choose|k: int| 0 <= k < s.push(x).len() && s.push(x)[k] == y;
            if k < s.len() {
                assert(s[k] == y);
            }
        }
        if s.contains(y) {
            let k = choose|k: int| 0 <= k < s.len() && s[k] == y;
            assert(s.push(x)[k] == y);
        }
        if y == x {
            assert(s.push(x)[s.len() as int] == y);
        }
    }
}

} // verus!

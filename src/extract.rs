//! Link extraction: a best-effort scan of HTML for quoted attribute values
//! that name pages (`href`) or images (`src`, and lazy-loaded `data-src`).
use vstd::prelude::*;
use crate::bytes::{
    contains_bytes, copy_range, lemma_push_contains, find_first_of, first_of, lower, same_bytes, views, DQUOTE, EQUALS,
    SQUOTE,
};
use crate::url::{normalize, normalized};

verus! {

/// What a reference in a page points at.
#[derive(Clone, Copy, Debug, PartialEq, Eq, Structural)]
pub enum RefKind {
    /// A hyperlink to another page.
    Page,
    /// The source of an image.
    Image,
}

pub open spec fn is_space(b: u8) -> bool {
    b == 32 || b == 9 || b == 10 || b == 12 || b == 13
}

pub open spec fn href_name() -> Seq<u8> {
    seq![104u8, 114u8, 101u8, 102u8]
}

pub open spec fn src_name() -> Seq<u8> {
    seq![115u8, 114u8, 99u8]
}

pub open spec fn data_src_name() -> Seq<u8> {
    seq![100u8, 97u8, 116u8, 97u8, 45u8, 115u8, 114u8, 99u8]
}

/// The quoted value of attribute `name` (matched without regard to case)
/// whose name starts at `j` after white space; `None` where there is no such
/// attribute or its closing quote is missing.
pub open spec fn attr_value_at(html: Seq<u8>, j: int, name: Seq<u8>) -> Option<Seq<u8>> {
    let n = name.len() as int;
    if 0 < j && j + n + 2 <= html.len() && is_space(html[j - 1]) && lower(html.subrange(j, j + n))
        == name && html[j + n] == EQUALS && (html[j + n + 1] == DQUOTE || html[j + n + 1]
        == SQUOTE) {
        let e = first_of(html, j + n + 2, seq![html[j + n + 1]]);
        if e < html.len() {
            Some(html.subrange(j + n + 2, e))
        } else {
            None
        }
    } else {
        None
    }
}

/// The raw reference of the given kind whose attribute starts at `j`.
pub open spec fn ref_at(html: Seq<u8>, j: int, kind: RefKind) -> Option<Seq<u8>> {
    match kind {
        RefKind::Page => attr_value_at(html, j, href_name()),
        RefKind::Image => match attr_value_at(html, j, src_name()) {
            Some(v) => Some(v),
            None => attr_value_at(html, j, data_src_name()),
        },
    }
}

/// The normalized URL of the reference at `j`, where there is one and it normalizes.
pub open spec fn link_at(html: Seq<u8>, base: Seq<u8>, j: int, kind: RefKind) -> Option<Seq<u8>> {
    match ref_at(html, j, kind) {
        Some(v) => match normalized(base, v) {
            Ok(u) => Some(u),
            Err(_) => None,
        },
        None => None,
    }
}

fn attr_value(html: &[u8], j: usize, name: &[u8]) -> (r: Option<Vec<u8>>)
    requires
        j < html@.len(),
    ensures
        match r {
            Some(v) => attr_value_at(html@, j as int, name@) == Some(v@),
            None => attr_value_at(html@, j as int, name@) is None,
        },
{
    let n = name.len();
    if j == 0 || n > html.len() - j || html.len() - j - n < 2 {
        return None;
    }
    let c = html[j - 1];
    if !(c == 32 || c == 9 || c == 10 || c == 12 || c == 13) {
        return None;
    }
    let word = copy_range(html, j, j + n, true);
    if !same_bytes(word.as_slice(), name) || html[j + n] != EQUALS {
        return None;
    }
    let quote = html[j + n + 1];
    if quote != DQUOTE && quote != SQUOTE {
        return None;
    }
    let stop: Vec<u8> = vec![quote];
    assert(stop@ =~= seq![quote]);
    let e = find_first_of(html, j + n + 2, stop.as_slice());
    if e < html.len() {
        Some(copy_range(html, j + n + 2, e, false))
    } else {
        None
    }
}

fn ref_value(html: &[u8], j: usize, kind: RefKind) -> (r: Option<Vec<u8>>)
    requires
        j < html@.len(),
    ensures
        match r {
            Some(v) => ref_at(html@, j as int, kind) == Some(v@),
            None => ref_at(html@, j as int, kind) is None,
        },
{
    match kind {
        RefKind::Page => {
            let name: Vec<u8> = vec![104u8, 114u8, 101u8, 102u8];
            assert(name@ =~= href_name());
            attr_value(html, j, name.as_slice())
        },
        RefKind::Image => {
            let name: Vec<u8> = vec![115u8, 114u8, 99u8];
            assert(name@ =~= src_name());
            match attr_value(html, j, name.as_slice()) {
                Some(v) => Some(v),
                None => {
                    let lazy: Vec<u8> = vec![100u8, 97u8, 116u8, 97u8, 45u8, 115u8, 114u8, 99u8];
                    assert(lazy@ =~= data_src_name());
                    attr_value(html, j, lazy.as_slice())
                },
            }
        },
    }
}

/// The distinct normalized URLs of the given kind referenced in `html`,
/// resolved against `base`, in order of first appearance. Attributes that
/// are unterminated or whose value does not normalize are skipped.
pub fn extract(html: &[u8], base: &[u8], kind: RefKind) -> (r: Vec<Vec<u8>>)
    ensures
        views(r@).no_duplicates(),
        forall|u: Seq<u8>|
            views(r@).contains(u) <==> exists|j: int|
                0 <= j < html@.len() && #[trigger] link_at(html@, base@, j, kind) == Some(u),
{
    let mut out: Vec<Vec<u8>> = Vec::new();
    let mut j: usize = 0;
    while j < html.len()
        invariant
            j <= html@.len(),
            views(out@).no_duplicates(),
            forall|u: Seq<u8>|
                views(out@).contains(u) <==> exists|i: int|
                    0 <= i < j && #[trigger] link_at(html@, base@, i, kind) == Some(u),
        decreases html@.len() - j,
    {
        let ghost old_out = out@;
        match ref_value(html, j, kind) {
            Some(v) => match normalize(base, v.as_slice()) {
                Ok(u) => {
                    assert(link_at(html@, base@, j as int, kind) == Some(u@));
                    assert(views(out@) == views(old_out));
                    if !contains_bytes(&out, u.as_slice()) {
                        let ghost uv = u@;
                        out.push(u);
                        assert(views(out@) =~= views(old_out).push(uv));
                        proof {
                            lemma_push_contains(views(old_out), uv);
                        }
                        assert(views(out@).no_duplicates()) by {
                            assert forall|a: int, b: int|
                                0 <= a < b < views(out@).len() implies views(out@)[a]
                                != views(out@)[b] by {
                                if b == views(out@).len() - 1 {
                                    assert(views(old_out)[a] == views(out@)[a]);
                                }
                            }
                        }
                    }
                },
                Err(_) => {
                    assert(link_at(html@, base@, j as int, kind) is None);
                },
            },
            None => {
                assert(link_at(html@, base@, j as int, kind) is None);
            },
        }
        assert(forall|u: Seq<u8>|
            #[trigger] views(out@).contains(u) <==> (views(old_out).contains(u) || link_at(
                html@,
                base@,
                j as int,
                kind,
            ) == Some(u)));
        assert forall|u: Seq<u8>|
            views(out@).contains(u) <==> exists|i: int|
                0 <= i < j + 1 && #[trigger] link_at(html@, base@, i, kind) == Some(u) by {
            if views(old_out).contains(u) {
                let i = choose|i: int| 0 <= i < j && #[trigger] link_at(html@, base@, i, kind) == Some(u);
                assert(0 <= i < j + 1 && link_at(html@, base@, i, kind) == Some(u));
            }
            if link_at(html@, base@, j as int, kind) == Some(u) {
                assert(0 <= j < j + 1);
            }
            if exists|i: int| 0 <= i < j + 1 && #[trigger] link_at(html@, base@, i, kind) == Some(u) {
                let i = choose|i: int| 0 <= i < j + 1 && #[trigger] link_at(html@, base@, i, kind) == Some(u);
                if i < j {
                    assert(views(old_out).contains(u));
                }
            }
        }
        j = j + 1;
    }
    out
}

} // verus!

//! Confinement of resolved paths to the served directory.

use vstd::prelude::*;
use vstd::string::*;

use crate::text::{find, find_byte, lemma_find_byte, DOT, SLASH};

verus! {

/// The components of the path `b[i..]`: the pieces between slashes, without the empty
/// ones and without `.`.
pub open spec fn components_from(b: Seq<u8>, i: int) -> Seq<Seq<u8>>
    decreases b.len() + 1 - i,
    via components_from_decreases
{
    if i < 0 || i >= b.len() {
        Seq::empty()
    } else {
        let e = find_byte(b, SLASH, i);
        let piece = b.subrange(i, e);
        if piece.len() == 0 || piece == seq![DOT] {
            components_from(b, e + 1)
        } else {
            seq![piece] + components_from(b, e + 1)
        }
    }
}

#[via_fn]
proof fn components_from_decreases(b: Seq<u8>, i: int) {
    if 0 <= i < b.len() {
        lemma_find_byte(b, SLASH, i);
    }
}

pub open spec fn components(b: Seq<u8>) -> Seq<Seq<u8>> {
    components_from(b, 0)
}

pub open spec fn is_absolute(b: Seq<u8>) -> bool {
    b.len() > 0 && b[0] == SLASH
}

pub open spec fn parent_component() -> Seq<u8> {
    seq![DOT, DOT]
}

/// Whether `candidate` lies at or below `root`: both are absolute or both relative, the
/// components of `root` begin those of `candidate`, and neither path steps up with `..`.
/// Both are meant to be canonical, so that no link or `..` remains in them.
pub open spec fn within(root: Seq<u8>, candidate: Seq<u8>) -> bool {
    &&& is_absolute(root) == is_absolute(candidate)
    &&& components(root).is_prefix_of(components(candidate))
    &&& !components(root).contains(parent_component())
    &&& !components(candidate).contains(parent_component())
}

pub open spec fn pieces(b: Seq<u8>, spans: Seq<(usize, usize)>) -> Seq<Seq<u8>> {
    spans.map_values(|p: (usize, usize)| b.subrange(p.0 as int, p.1 as int))
}

/// The spans of the components of `b`.
fn component_spans(b: &[u8]) -> (r: Vec<(usize, usize)>)
    ensures
        pieces(b@, r@) == components(b@),
        forall|k: int| 0 <= k < r@.len() ==> (#[trigger] r@[k]).0 <= r@[k].1 <= b@.len(),
{
    let mut r: Vec<(usize, usize)> = Vec::new();
    let mut i: usize = 0;
    assert(pieces(b@, r@) =~= Seq::<Seq<u8>>::empty());
    while i < b.len()
        invariant
            i <= b@.len(),
            components(b@) == pieces(b@, r@) + components_from(b@, i as int),
            forall|k: int| 0 <= k < r@.len() ==> (#[trigger] r@[k]).0 <= r@[k].1 <= b@.len(),
        decreases b@.len() - i,
    {
        let e = find(b, SLASH, i);
        proof {
            lemma_find_byte(b@, SLASH, i as int);
        }
        let ghost before = pieces(b@, r@);
        let ghost piece = b@.subrange(i as int, e as int);
        let single_dot = e == i + 1 && b[i] == DOT;
        assert(single_dot == (piece == seq![DOT])) by {
            if piece == seq![DOT] {
                assert(piece[0] == b@[i as int]);
            }
            if single_dot {
                assert(piece =~= seq![DOT]);
            }
        }
        if e > i && !single_dot {
            r.push((i, e));
            assert(pieces(b@, r@) =~= before + seq![piece]);
        }
        let next = if e < b.len() {
            e + 1
        } else {
            e
        };
        assert(components_from(b@, next as int) == components_from(b@, e + 1));
        i = next;
    }
    assert(pieces(b@, r@) + Seq::<Seq<u8>>::empty() =~= pieces(b@, r@));
    r
}

fn span_eq(a: &[u8], sa: (usize, usize), b: &[u8], sb: (usize, usize)) -> (r: bool)
    requires
        sa.0 <= sa.1 <= a@.len(),
        sb.0 <= sb.1 <= b@.len(),
    ensures
        r == (a@.subrange(sa.0 as int, sa.1 as int) == b@.subrange(sb.0 as int, sb.1 as int)),
{
    let ghost x = a@.subrange(sa.0 as int, sa.1 as int);
    let ghost y = b@.subrange(sb.0 as int, sb.1 as int);
    if sa.1 - sa.0 != sb.1 - sb.0 {
        assert(x.len() != y.len());
        return false;
    }
    let len = sa.1 - sa.0;
    let mut k: usize = 0;
    while k < len
        invariant
            len == sa.1 - sa.0 == sb.1 - sb.0,
            sa.0 <= sa.1 <= a@.len(),
            sb.0 <= sb.1 <= b@.len(),
            x == a@.subrange(sa.0 as int, sa.1 as int),
            y == b@.subrange(sb.0 as int, sb.1 as int),
            k <= len,
            forall|j: int| 0 <= j < k ==> x[j] == y[j],
        decreases len - k,
    {
        if a[sa.0 + k] != b[sb.0 + k] {
            assert(x[k as int] != y[k as int]);
            return false;
        }
        k += 1;
    }
    assert(x =~= y);
    true
}

fn has_parent_step(b: &[u8], spans: &Vec<(usize, usize)>) -> (r: bool)
    requires
        forall|k: int| 0 <= k < spans@.len() ==> (#[trigger] spans@[k]).0 <= spans@[k].1 <= b@.len(),
    ensures
        r == pieces(b@, spans@).contains(parent_component()),
{
    let dots: [u8; 2] = [DOT, DOT];
    let d = dots.as_slice();
    assert(d@ =~= parent_component());
    let mut k: usize = 0;
    while k < spans.len()
        invariant
            k <= spans@.len(),
            d@ == parent_component(),
            forall|j: int| 0 <= j < spans@.len() ==> (#[trigger] spans@[j]).0 <= spans@[j].1 <= b@.len(),
            forall|j: int| 0 <= j < k ==> pieces(b@, spans@)[j] != parent_component(),
        decreases spans@.len() - k,
    {
        if span_eq(b, spans[k], d, (0, 2)) {
            assert(d@.subrange(0, 2) =~= d@);
            assert(pieces(b@, spans@)[k as int] == parent_component());
            return true;
        }
        assert(d@.subrange(0, 2) =~= d@);
        k += 1;
    }
    false
}

/// Whether the canonical path `candidate` lies within the canonical `root`. This is
/// the check that keeps requests inside the served directory; it compares whole
/// components, so `/srv/www2` is not within `/srv/www`.
pub fn within_root(root: &str, candidate: &str) -> (r: bool)
    ensures
        r == within(root.spec_bytes(), candidate.spec_bytes()),
{
    let a = root.as_bytes();
    let b = candidate.as_bytes();
    let abs_a = a.len() > 0 && a[0] == SLASH;
    let abs_b = b.len() > 0 && b[0] == SLASH;
    if abs_a != abs_b {
        return false;
    }
    let ra = component_spans(a);
    let rb = component_spans(b);
    if has_parent_step(a, &ra) || has_parent_step(b, &rb) {
        return false;
    }
    if ra.len() > rb.len() {
        return false;
    }
    let ghost pa = pieces(a@, ra@);
    let ghost pb = pieces(b@, rb@);
    let mut k: usize = 0;
    while k < ra.len()
        invariant
            ra@.len() <= rb@.len(),
            k <= ra@.len(),
            pa == pieces(a@, ra@),
            pb == pieces(b@, rb@),
            pa == components(root.spec_bytes()),
            pb == components(candidate.spec_bytes()),
            is_absolute(a@) == is_absolute(b@),
            a@ == root.spec_bytes(),
            b@ == candidate.spec_bytes(),
            !pa.contains(parent_component()),
            !pb.contains(parent_component()),
            forall|j: int| 0 <= j < ra@.len() ==> (#[trigger] ra@[j]).0 <= ra@[j].1 <= a@.len(),
            forall|j: int| 0 <= j < rb@.len() ==> (#[trigger] rb@[j]).0 <= rb@[j].1 <= b@.len(),
            forall|j: int| 0 <= j < k ==> pa[j] == pb[j],
        decreases ra@.len() - k,
    {
        if !span_eq(a, ra[k], b, rb[k]) {
            assert(pa[k as int] != pb[k as int]);
            assert(pb.subrange(0, pa.len() as int)[k as int] == pb[k as int]);
            assert(!pa.is_prefix_of(pb));
            return false;
        }
        k += 1;
    }
    assert(pb.subrange(0, pa.len() as int) =~= pa);
    true
}

/// The components that a path reaches once each `..` takes back the component before
/// it; a `..` at the top stays at the top.
pub open spec fn normalize(cs: Seq<Seq<u8>>) -> Seq<Seq<u8>>
    decreases cs.len(),
{
    if cs.len() == 0 {
        Seq::empty()
    } else {
        let front = normalize(cs.drop_last());
        if cs.last() == parent_component() {
            if front.len() > 0 {
                front.drop_last()
            } else {
                front
            }
        } else {
            front.push(cs.last())
        }
    }
}

/// Whether the place that `candidate` names, with every `..` in it followed, lies at
/// or below the place that `root` names.
pub open spec fn stays_under(root: Seq<u8>, candidate: Seq<u8>) -> bool {
    &&& is_absolute(root) == is_absolute(candidate)
    &&& normalize(components(root)).is_prefix_of(normalize(components(candidate)))
}

proof fn lemma_normalize_plain(cs: Seq<Seq<u8>>)
    requires
        !cs.contains(parent_component()),
    ensures
        normalize(cs) == cs,
    decreases cs.len(),
{
    if cs.len() > 0 {
        assert(!cs.drop_last().contains(parent_component())) by {
            if cs.drop_last().contains(parent_component()) {
                let j = choose|j: int| 0 <= j < cs.drop_last().len() && cs.drop_last()[j] == parent_component();
                assert(cs[j] == parent_component());
            }
        }
        lemma_normalize_plain(cs.drop_last());
        assert(cs[cs.len() - 1] != parent_component());
        assert(cs.drop_last().push(cs.last()) =~= cs);
    }
}

/// A path that passes the check stays under the root, whatever `..` or escapes the
/// request held before the path was made canonical: following every `..` in it never
/// leads above the root.
pub proof fn lemma_within_stays_under(root: Seq<u8>, candidate: Seq<u8>)
    requires
        within(root, candidate),
    ensures
        stays_under(root, candidate),
{
    lemma_normalize_plain(components(root));
    lemma_normalize_plain(components(candidate));
}

} // verus!

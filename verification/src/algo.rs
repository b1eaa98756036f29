//! Structural edit primitives. All three are pure: they never mutate their
//! arguments and return a new tree whose untouched children are the very
//! same elements (shared by reference) as the input's.

use crate::tree::{children_of, is_node, kind_of, lemma_size_child, size_of, Element};
use vstd::prelude::*;

verus! {

/// Why an edit was refused. The tree under edit is left untouched.
#[derive(Clone, Copy, Debug, PartialEq, Eq, Structural)]
pub enum EditError {
    /// An anchor does not name a current direct child of the edited node.
    InvalidAnchor,
    /// A delete range's boundaries are not siblings in document order.
    InvalidRange,
    /// The result would not satisfy the grammar category asked of it.
    InvalidStructure,
}

/// Where to insert among a node's direct children. Anchors name a current
/// direct child by index; anchors computed against a stale tree version are
/// simply indices into the wrong sequence and are rejected when out of range.
#[derive(Clone, Copy, Debug, PartialEq, Eq, Structural)]
pub enum InsertPosition {
    First,
    Last,
    Before(usize),
    After(usize),
}

/// The splice index named by `position` in a child sequence of length `len`,
/// or `None` when the anchor is not a current child.
pub open spec fn insert_index(position: InsertPosition, len: int) -> Option<int> {
    match position {
        InsertPosition::First => Some(0),
        InsertPosition::Last => Some(len),
        InsertPosition::Before(i) => if i < len {
            Some(i as int)
        } else {
            None
        },
        InsertPosition::After(i) => if i < len {
            Some(i as int + 1)
        } else {
            None
        },
    }
}

/// `cs` with `removed` children cut out at `k` and `ins` spliced in their
/// place.
pub open spec fn spliced(cs: Seq<Element>, k: int, removed: int, ins: Seq<Element>) -> Seq<
    Element,
> {
    cs.subrange(0, k) + ins + cs.subrange(k + removed, cs.len() as int)
}

/// Append duplicates of `cs[from..to]`'s children of `parent` to `out`.
fn push_child_range(parent: &Element, out: &mut Vec<Element>, from: usize, to: usize)
    requires
        is_node(*parent),
        from <= to <= children_of(*parent).len(),
    ensures
        final(out)@ == old(out)@ + children_of(*parent).subrange(from as int, to as int),
{
    let ghost cs = children_of(*parent);
    for j in from..to
        invariant
            is_node(*parent),
            cs == children_of(*parent),
            from <= j <= to <= cs.len(),
            out@ == old(out)@ + cs.subrange(from as int, j as int),
    {
        out.push(parent.child(j).duplicate());
        proof {
            assert(out@ =~= old(out)@ + cs.subrange(from as int, j + 1));
        }
    }
}

/// Append duplicates of all of `src` to `out`.
fn push_all(out: &mut Vec<Element>, src: &Vec<Element>)
    ensures
        final(out)@ == old(out)@ + src@,
{
    let n = src.len();
    for j in 0..n
        invariant
            n == src@.len(),
            out@ == old(out)@ + src@.subrange(0, j as int),
    {
        out.push(src[j].duplicate());
        proof {
            assert(out@ =~= old(out)@ + src@.subrange(0, j + 1));
        }
    }
    proof {
        assert(out@ =~= old(out)@ + src@);
    }
}

/// Insert the given elements, in order, among `parent`'s direct children so
/// that the first lands at child index `k`. Every original child is carried
/// over into the result by reference; fails with `InvalidAnchor` when `k`
/// lies past the child sequence.
pub fn insert_at(parent: &Element, k: usize, to_insert: &Vec<Element>) -> (r: Result<
    Element,
    EditError,
>)
    requires
        is_node(*parent),
    ensures
        ({
            let cs = children_of(*parent);
            if k <= cs.len() {
                match r {
                    Ok(out) => is_node(out) && kind_of(out) == kind_of(*parent) && children_of(out)
                        == spliced(cs, k as int, 0, to_insert@),
                    Err(_) => false,
                }
            } else {
                r == Err::<Element, EditError>(EditError::InvalidAnchor)
            }
        }),
{
    let ghost cs = children_of(*parent);
    let len = parent.n_children();
    if k > len {
        return Err(EditError::InvalidAnchor);
    }
    let mut children: Vec<Element> = Vec::new();
    push_child_range(parent, &mut children, 0, k);
    push_all(&mut children, to_insert);
    push_child_range(parent, &mut children, k, len);
    let out = Element::new_node(parent.kind(), children);
    proof {
        assert(children_of(out) =~= spliced(cs, k as int, 0, to_insert@));
    }
    Ok(out)
}

/// Insert the given elements, in order, among `parent`'s direct children at
/// `position`. Every original child is carried over into the result by
/// reference; fails with `InvalidAnchor` when `position` names an element
/// that is not currently a child of `parent`.
pub fn insert_children(parent: &Element, position: InsertPosition, to_insert: &Vec<Element>) -> (r:
    Result<Element, EditError>)
    requires
        is_node(*parent),
    ensures
        ({
            let cs = children_of(*parent);
            match insert_index(position, cs.len() as int) {
                Some(k) => match r {
                    Ok(out) => is_node(out) && kind_of(out) == kind_of(*parent) && children_of(out)
                        == spliced(cs, k, 0, to_insert@),
                    Err(_) => false,
                },
                None => r == Err::<Element, EditError>(EditError::InvalidAnchor),
            }
        }),
{
    let len = parent.n_children();
    let k: usize;
    match position {
        InsertPosition::First => {
            k = 0;
        },
        InsertPosition::Last => {
            k = len;
        },
        InsertPosition::Before(i) => {
            if i >= len {
                return Err(EditError::InvalidAnchor);
            }
            k = i;
        },
        InsertPosition::After(i) => {
            if i >= len {
                return Err(EditError::InvalidAnchor);
            }
            k = i + 1;
        },
    }
    insert_at(parent, k, to_insert)
}

/// Delete the inclusive run of direct children `start..=end` and splice the
/// given elements in its place. Every child outside the deleted run is
/// carried over by reference; fails with `InvalidRange` when the boundaries
/// are not current children in document order.
pub fn replace_children(parent: &Element, start: usize, end: usize, to_insert: &Vec<Element>) -> (r:
    Result<Element, EditError>)
    requires
        is_node(*parent),
    ensures
        ({
            let cs = children_of(*parent);
            if start <= end < cs.len() {
                match r {
                    Ok(out) => is_node(out) && kind_of(out) == kind_of(*parent) && children_of(out)
                        == spliced(cs, start as int, end + 1 - start as int, to_insert@),
                    Err(_) => false,
                }
            } else {
                r == Err::<Element, EditError>(EditError::InvalidRange)
            }
        }),
{
    let ghost cs = children_of(*parent);
    let len = parent.n_children();
    if !(start <= end && end < len) {
        return Err(EditError::InvalidRange);
    }
    let mut children: Vec<Element> = Vec::new();
    push_child_range(parent, &mut children, 0, start);
    push_all(&mut children, to_insert);
    push_child_range(parent, &mut children, end + 1, len);
    let out = Element::new_node(parent.kind(), children);
    proof {
        assert(children_of(out) =~= spliced(cs, start as int, end + 1 - start as int, to_insert@));
    }
    Ok(out)
}

/// Holds when `out` can be `orig` after one top-down pass of
/// identity-based substitution. A subtree that was replaced by a pair's
/// value was identical (same allocation) to that pair's key, and identical
/// elements are equal, so the first disjunct demands an equal key; a subtree
/// that no key was identical to keeps its kind and shape, with substitution
/// running on through its children. Which equal elements share an
/// allocation is not visible in specifications, so the relation admits
/// every outcome of that choice; it never admits a replacement whose key
/// differs from the replaced subtree, nor any change outside the
/// substituted subtrees.
pub open spec fn is_ident_subst(orig: Element, subs: Seq<(Element, Element)>, out: Element) -> bool
    decreases orig, 0int,
{
    ||| exists|k: int|
        0 <= k < subs.len() && (#[trigger] subs[k]).0 == orig && out == subs[k].1
    ||| match orig {
        Element::Token(_) => out == orig,
        Element::Node(n) => is_node(out) && kind_of(out) == n.kind && children_of(out).len()
            == n.children@.len() && is_ident_subst_from(n.children@, subs, children_of(out), 0),
    }
}

/// Pointwise identity-based substitution over `cs[i..]` and `ds[i..]`.
pub open spec fn is_ident_subst_from(
    cs: Seq<Element>,
    subs: Seq<(Element, Element)>,
    ds: Seq<Element>,
    i: int,
) -> bool
    decreases cs, cs.len() - i + 1,
{
    if i < 0 || i >= cs.len() {
        true
    } else {
        is_ident_subst(cs[i], subs, ds[i]) && is_ident_subst_from(cs, subs, ds, i + 1)
    }
}

proof fn lemma_is_ident_subst_from_pointwise(
    cs: Seq<Element>,
    subs: Seq<(Element, Element)>,
    ds: Seq<Element>,
    i: int,
)
    requires
        cs.len() == ds.len(),
        forall|j: int| i <= j < cs.len() ==> is_ident_subst(#[trigger] cs[j], subs, ds[j]),
    ensures
        is_ident_subst_from(cs, subs, ds, i),
    decreases cs, cs.len() - i + 1,
{
    if 0 <= i < cs.len() {
        lemma_is_ident_subst_from_pointwise(cs, subs, ds, i + 1);
    }
}

/// `orig` with every sub-element identical (by allocation, never by value)
/// to a substitution key replaced, top-down, by the first such pair's
/// value: only elements actually obtained from this tree can match, so
/// distinct-but-equal subtrees from elsewhere never do. A replaced subtree
/// is not searched again; elements with no match are carried over by
/// reference.
pub fn replace_descendants_elem(orig: &Element, subs: &Vec<(Element, Element)>) -> (r: Element)
    ensures
        is_ident_subst(*orig, subs@, r),
    decreases size_of(*orig),
{
    let n = subs.len();
    for idx in 0..n
        invariant
            n == subs@.len(),
    {
        if subs[idx].0.same_ref(orig) {
            let r = subs[idx].1.duplicate();
            proof {
                assert(subs@[idx as int].0 == *orig && r == subs@[idx as int].1);
            }
            return r;
        }
    }
    match orig {
        Element::Token(_) => orig.duplicate(),
        Element::Node(nd) => {
            let len = orig.n_children();
            let mut children: Vec<Element> = Vec::new();
            for i in 0..len
                invariant
                    len == children_of(*orig).len(),
                    is_node(*orig),
                    kind_of(*orig) == nd.kind,
                    children_of(*orig) == nd.children@,
                    children@.len() == i,
                    forall|j: int| 0 <= j < i ==> is_ident_subst(
                        #[trigger] children_of(*orig)[j],
                        subs@,
                        children@[j],
                    ),
            {
                proof {
                    lemma_size_child(*orig, i as int);
                }
                let c = replace_descendants_elem(orig.child(i), subs);
                children.push(c);
            }
            let out = Element::new_node(orig.kind(), children);
            proof {
                lemma_is_ident_subst_from_pointwise(nd.children@, subs@, children_of(out), 0);
            }
            out
        },
    }
}

} // verus!

//! The immutable element tree: tokens (leaves with literal text) and nodes
//! (interior elements with an ordered child sequence), both tagged with a
//! syntax kind. Elements are immutable once constructed; new trees share
//! untouched subtrees with old ones by reference.

use std::rc::Rc;
use vstd::prelude::*;

verus! {

/// Grammar kind tag carried by every element, token or node.
#[derive(Clone, Copy, Debug, PartialEq, Eq, Structural)]
pub enum SyntaxKind {
    Whitespace,
    Comma,
    LCurly,
    RCurly,
    Colon,
    Semicolon,
    Ident,
    Attr,
    Comment,
    RecordField,
    RecordFieldList,
    ItemList,
    FnDef,
    TypeParam,
    TypeBoundList,
    Block,
    Other,
}

/// A leaf element: a kind tag and its literal text, as bytes.
pub struct TokenData {
    pub kind: SyntaxKind,
    pub text: Vec<u8>,
}

/// An interior element: a kind tag and an ordered sequence of children,
/// tokens and nodes interleaved.
pub struct NodeData {
    pub kind: SyntaxKind,
    pub children: Vec<Element>,
}

/// A tree element. The reference-counted payload is what makes structural
/// sharing possible: duplicating an element hands out the same allocation.
pub enum Element {
    Token(Rc<TokenData>),
    Node(Rc<NodeData>),
}

/// True when the element is a leaf token.
pub open spec fn is_token(e: Element) -> bool {
    e is Token
}

/// True when the element is an interior node.
pub open spec fn is_node(e: Element) -> bool {
    e is Node
}

/// The kind tag of an element.
pub open spec fn kind_of(e: Element) -> SyntaxKind {
    match e {
        Element::Token(t) => t.kind,
        Element::Node(n) => n.kind,
    }
}

/// The direct children of an element; a token has none.
pub open spec fn children_of(e: Element) -> Seq<Element> {
    match e {
        Element::Token(_) => Seq::empty(),
        Element::Node(n) => n.children@,
    }
}

/// The literal text of a token; empty for a node.
pub open spec fn token_text(e: Element) -> Seq<u8> {
    match e {
        Element::Token(t) => t.text@,
        Element::Node(_) => Seq::empty(),
    }
}

/// The full rendered text of an element: a token renders as its literal
/// text, a node as the concatenation of its children's renderings.
pub open spec fn render(e: Element) -> Seq<u8>
    decreases e,
{
    match e {
        Element::Token(t) => t.text@,
        Element::Node(n) => render_seq(n.children@, 0),
    }
}

/// The concatenation of the renderings of `cs[i..]`.
pub open spec fn render_seq(cs: Seq<Element>, i: int) -> Seq<u8>
    decreases cs, cs.len() - i,
{
    if i < 0 || i >= cs.len() {
        Seq::empty()
    } else {
        render(cs[i]) + render_seq(cs, i + 1)
    }
}

/// The number of elements in the subtree rooted at `e`, used as a
/// termination measure for executable walks.
pub open spec fn size_of(e: Element) -> nat
    decreases e,
{
    match e {
        Element::Token(_) => 1,
        Element::Node(n) => 1 + size_seq(n.children@, 0),
    }
}

/// The total size of the subtrees of `cs[i..]`.
pub open spec fn size_seq(cs: Seq<Element>, i: int) -> nat
    decreases cs, cs.len() - i,
{
    if i < 0 || i >= cs.len() {
        0
    } else {
        size_of(cs[i]) + size_seq(cs, i + 1)
    }
}

proof fn lemma_size_seq_bound(cs: Seq<Element>, j: int, i: int)
    requires
        0 <= j <= i < cs.len(),
    ensures
        size_seq(cs, j) >= size_of(cs[i]),
    decreases i - j,
{
    if j < i {
        lemma_size_seq_bound(cs, j + 1, i);
    }
}

/// A direct child's subtree is strictly smaller than its parent's.
pub proof fn lemma_size_child(e: Element, i: int)
    requires
        is_node(e),
        0 <= i < children_of(e).len(),
    ensures
        size_of(children_of(e)[i]) < size_of(e),
{
    lemma_size_seq_bound(children_of(e), 0, i);
}

/// Structural equivalence of elements: same shape, same kinds, same texts.
/// Two equivalent elements render identically and behave identically under
/// every operation of this crate.
pub open spec fn equiv(a: Element, b: Element) -> bool
    decreases a,
{
    match (a, b) {
        (Element::Token(t1), Element::Token(t2)) => t1.kind == t2.kind && t1.text@ == t2.text@,
        (Element::Node(n1), Element::Node(n2)) => n1.kind == n2.kind && equiv_seq(
            n1.children@,
            n2.children@,
            0,
        ),
        _ => false,
    }
}

/// Pointwise structural equivalence of `cs[i..]` and `ds[i..]`.
pub open spec fn equiv_seq(cs: Seq<Element>, ds: Seq<Element>, i: int) -> bool
    decreases cs, cs.len() - i,
{
    if cs.len() != ds.len() {
        false
    } else if i < 0 || i >= cs.len() {
        true
    } else {
        equiv(cs[i], ds[i]) && equiv_seq(cs, ds, i + 1)
    }
}

/// Equal elements are equivalent.
pub proof fn lemma_equiv_reflexive(a: Element)
    ensures
        equiv(a, a),
    decreases a,
{
    match a {
        Element::Token(_) => {},
        Element::Node(n) => {
            lemma_equiv_seq_reflexive(n.children@, 0);
        },
    }
}

proof fn lemma_equiv_seq_reflexive(cs: Seq<Element>, i: int)
    ensures
        equiv_seq(cs, cs, i),
    decreases cs, cs.len() - i,
{
    if 0 <= i < cs.len() {
        lemma_equiv_reflexive(cs[i]);
        lemma_equiv_seq_reflexive(cs, i + 1);
    }
}

/// Equivalent elements render to the same text.
pub proof fn lemma_equiv_render(a: Element, b: Element)
    requires
        equiv(a, b),
    ensures
        render(a) == render(b),
    decreases a,
{
    match (a, b) {
        (Element::Node(n1), Element::Node(n2)) => {
            lemma_equiv_render_seq(n1.children@, n2.children@, 0);
        },
        _ => {},
    }
}

proof fn lemma_equiv_render_seq(cs: Seq<Element>, ds: Seq<Element>, i: int)
    requires
        equiv_seq(cs, ds, i),
    ensures
        render_seq(cs, i) == render_seq(ds, i),
    decreases cs, cs.len() - i,
{
    if 0 <= i < cs.len() {
        lemma_equiv_render(cs[i], ds[i]);
        lemma_equiv_render_seq(cs, ds, i + 1);
    }
}

/// Relies on `Rc::clone`: the returned handle shares the allocation with the
/// argument, so it holds the very same token.
#[verifier::external_body]
fn rc_clone_token(t: &Rc<TokenData>) -> (r: Rc<TokenData>)
    ensures
        r == *t,
{
    Rc::clone(t)
}

/// Relies on `Rc::clone`: the returned handle shares the allocation with the
/// argument, so it holds the very same node.
#[verifier::external_body]
fn rc_clone_node(n: &Rc<NodeData>) -> (r: Rc<NodeData>)
    ensures
        r == *n,
{
    Rc::clone(n)
}

/// Relies on `Rc::ptr_eq`: it returns true only for handles to one
/// allocation, and one allocation holds one value.
#[verifier::external_body]
fn rc_same_token(a: &Rc<TokenData>, b: &Rc<TokenData>) -> (r: bool)
    ensures
        r ==> *a == *b,
{
    Rc::ptr_eq(a, b)
}

/// Relies on `Rc::ptr_eq`: it returns true only for handles to one
/// allocation, and one allocation holds one value.
#[verifier::external_body]
fn rc_same_node(a: &Rc<NodeData>, b: &Rc<NodeData>) -> (r: bool)
    ensures
        r ==> *a == *b,
{
    Rc::ptr_eq(a, b)
}

impl Element {
    /// Build a fresh leaf token.
    pub fn new_token(kind: SyntaxKind, text: Vec<u8>) -> (r: Element)
        ensures
            is_token(r),
            kind_of(r) == kind,
            token_text(r) == text@,
            render(r) == text@,
    {
        Element::Token(Rc::new(TokenData { kind, text }))
    }

    /// Build a fresh interior node over the given children.
    pub fn new_node(kind: SyntaxKind, children: Vec<Element>) -> (r: Element)
        ensures
            is_node(r),
            kind_of(r) == kind,
            children_of(r) == children@,
    {
        Element::Node(Rc::new(NodeData { kind, children }))
    }

    /// A second handle to the same element. The allocation is shared, which
    /// is what gives edited trees structural sharing with their originals.
    pub fn duplicate(&self) -> (r: Element)
        ensures
            r == *self,
    {
        match self {
            Element::Token(t) => Element::Token(rc_clone_token(t)),
            Element::Node(n) => Element::Node(rc_clone_node(n)),
        }
    }

    /// Identity test: true only when both handles share one allocation.
    /// Distinct allocations of equal value yield false, so a true answer
    /// implies equality, never the reverse.
    pub fn same_ref(&self, other: &Element) -> (r: bool)
        ensures
            r ==> *self == *other,
    {
        match (self, other) {
            (Element::Token(a), Element::Token(b)) => rc_same_token(a, b),
            (Element::Node(a), Element::Node(b)) => rc_same_node(a, b),
            _ => false,
        }
    }

    /// The element's kind tag.
    pub fn kind(&self) -> (r: SyntaxKind)
        ensures
            r == kind_of(*self),
    {
        match self {
            Element::Token(t) => t.kind,
            Element::Node(n) => n.kind,
        }
    }

    /// True when the element is an interior node.
    pub fn is_node(&self) -> (r: bool)
        ensures
            r == is_node(*self),
    {
        match self {
            Element::Token(_) => false,
            Element::Node(_) => true,
        }
    }

    /// The number of direct children; zero for a token.
    pub fn n_children(&self) -> (r: usize)
        ensures
            r == children_of(*self).len(),
    {
        match self {
            Element::Token(_) => 0,
            Element::Node(n) => n.children.len(),
        }
    }

    /// A borrow of the `i`-th direct child.
    pub fn child(&self, i: usize) -> (r: &Element)
        requires
            i < children_of(*self).len(),
        ensures
            *r == children_of(*self)[i as int],
    {
        match self {
            Element::Node(n) => &n.children[i],
            Element::Token(_) => vstd::pervasive::unreached(),
        }
    }

    /// A borrow of a token's literal text.
    pub fn text_bytes(&self) -> (r: &Vec<u8>)
        requires
            is_token(*self),
        ensures
            r@ == token_text(*self),
    {
        match self {
            Element::Token(t) => &t.text,
            Element::Node(_) => vstd::pervasive::unreached(),
        }
    }
}

/// Append the rendering of `e` to `out`.
pub fn render_into(e: &Element, out: &mut Vec<u8>)
    requires
        old(out)@.len() + render(*e).len() <= usize::MAX,
    ensures
        final(out)@ == old(out)@ + render(*e),
    decreases size_of(*e),
{
    match e {
        Element::Token(t) => {
            let text = &t.text;
            let n = text.len();
            for i in 0..n
                invariant
                    n == text@.len(),
                    out@ == old(out)@ + text@.subrange(0, i as int),
                    old(out)@.len() + text@.len() <= usize::MAX,
                    render(*e) == text@,
            {
                out.push(text[i]);
                proof {
                    assert(out@ =~= old(out)@ + text@.subrange(0, i + 1));
                }
            }
            proof {
                assert(text@.subrange(0, text@.len() as int) =~= text@);
            }
        },
        Element::Node(n) => {
            let children = &n.children;
            let len = children.len();
            proof {
                assert(render(*e) == render_seq(children@, 0));
            }
            for i in 0..len
                invariant
                    len == children@.len(),
                    is_node(*e),
                    children_of(*e) == children@,
                    out@ + render_seq(children@, i as int) == old(out)@ + render_seq(
                        children@,
                        0,
                    ),
                    old(out)@.len() + render_seq(children@, 0).len() <= usize::MAX,
                    render(*e) == render_seq(children@, 0),
            {
                let ghost prev = out@;
                proof {
                    assert(render_seq(children@, i as int) == render(children@[i as int])
                        + render_seq(children@, i + 1));
                    assert(prev.len() + render(children@[i as int]).len() <= prev.len()
                        + render_seq(children@, i as int).len());
                    assert((prev + render_seq(children@, i as int)).len() == prev.len()
                        + render_seq(children@, i as int).len());
                    lemma_size_child(*e, i as int);
                }
                render_into(&children[i], out);
                proof {
                    assert(out@ + render_seq(children@, i + 1) =~= prev + render_seq(
                        children@,
                        i as int,
                    ));
                }
            }
            proof {
                assert(out@ + render_seq(children@, len as int) =~= out@);
            }
        },
    }
}

/// The rendering of `e` as a fresh byte vector.
pub fn render_bytes(e: &Element) -> (r: Vec<u8>)
    requires
        render(*e).len() <= usize::MAX,
    ensures
        r@ == render(*e),
{
    let mut out: Vec<u8> = Vec::new();
    render_into(e, &mut out);
    proof {
        assert(Seq::<u8>::empty() + render(*e) =~= render(*e));
    }
    out
}

/// The rendered length of `e` when it fits the machine's word, `None` when
/// it does not.
pub fn try_render_len(e: &Element) -> (r: Option<usize>)
    ensures
        match r {
            Some(n) => n as int == render(*e).len(),
            None => render(*e).len() > usize::MAX,
        },
    decreases size_of(*e),
{
    match e {
        Element::Token(t) => Some(t.text.len()),
        Element::Node(n) => {
            let children = &n.children;
            let len = children.len();
            let mut acc: usize = 0;
            proof {
                assert(render(*e) == render_seq(children@, 0));
            }
            for i in 0..len
                invariant
                    len == children@.len(),
                    is_node(*e),
                    children_of(*e) == children@,
                    render(*e) == render_seq(children@, 0),
                    acc + render_seq(children@, i as int).len() == render(*e).len(),
            {
                proof {
                    assert(render_seq(children@, i as int) == render(children@[i as int])
                        + render_seq(children@, i + 1));
                    lemma_size_child(*e, i as int);
                }
                let cl = match try_render_len(&children[i]) {
                    Some(cl) => cl,
                    None => {
                        return None;
                    },
                };
                if acc > usize::MAX - cl {
                    return None;
                }
                acc = acc + cl;
            }
            proof {
                assert(render_seq(children@, len as int) =~= Seq::<u8>::empty());
            }
            Some(acc)
        },
    }
}

/// True exactly when the rendering of `e` contains a line break.
pub fn contains_newline(e: &Element) -> (r: bool)
    requires
        render(*e).len() <= usize::MAX,
    ensures
        r == render(*e).contains(10u8),
{
    let v = render_bytes(e);
    let n = v.len();
    for i in 0..n
        invariant
            n == v@.len(),
            v@ == render(*e),
            forall|j: int| 0 <= j < i ==> v@[j] != 10u8,
    {
        if v[i] == 10u8 {
            proof {
                assert(render(*e)[i as int] == 10u8);
            }
            return true;
        }
    }
    proof {
        assert forall|j: int| 0 <= j < render(*e).len() implies render(*e)[j] != 10u8 by {}
    }
    false
}

/// Byte-for-byte equality of two byte vectors.
pub fn bytes_eq(a: &Vec<u8>, b: &Vec<u8>) -> (r: bool)
    ensures
        r == (a@ == b@),
{
    let n = a.len();
    if n != b.len() {
        return false;
    }
    for i in 0..n
        invariant
            n == a@.len(),
            n == b@.len(),
            forall|j: int| 0 <= j < i ==> a@[j] == b@[j],
    {
        if a[i] != b[i] {
            return false;
        }
    }
    proof {
        assert(a@ =~= b@);
    }
    true
}

} // verus!

//! The editing session and the construct-aware insertion policies. A
//! session pairs an immutable baseline with an evolving current version of
//! one typed node; policy operations rewrite the current version through the
//! structural primitives, and finalizing diffs baseline against current.

use crate::algo::{
    insert_at, is_ident_subst, replace_children, replace_descendants_elem, EditError,
    InsertPosition,
};
use crate::buf::{av_insert, av_into_vec, av_new, av_push};
use crate::diff::{applied, diff, wf_patches, PatchEntry};
use crate::text::{line_indent, line_indent_at, push_bytes};
use crate::tree::{
    children_of, contains_newline, equiv, is_node, is_token, kind_of, render, render_bytes,
    render_seq, token_text, try_render_len, Element, SyntaxKind,
};
use vstd::prelude::*;

verus! {

/// The closed grammar categories a session can hold. Every operation keeps
/// the current node inside its category.
#[derive(Clone, Copy, Debug, PartialEq, Eq, Structural)]
pub enum Category {
    RecordFieldList,
    ItemList,
    ImplItem,
    TypeParam,
    FnDef,
}

/// The node kind that a category's root must carry.
pub open spec fn category_kind(cat: Category) -> SyntaxKind {
    match cat {
        Category::RecordFieldList => SyntaxKind::RecordFieldList,
        Category::ItemList => SyntaxKind::ItemList,
        Category::ImplItem => SyntaxKind::FnDef,
        Category::TypeParam => SyntaxKind::TypeParam,
        Category::FnDef => SyntaxKind::FnDef,
    }
}

/// An element belongs to a category when it is a node of the category's
/// kind.
pub open spec fn category_matches(cat: Category, e: Element) -> bool {
    is_node(e) && kind_of(e) == category_kind(cat)
}

/// Checked narrowing of an element to a category: the element back when it
/// satisfies the category's grammar, `InvalidStructure` otherwise.
pub fn cast(cat: Category, e: Element) -> (r: Result<Element, EditError>)
    ensures
        category_matches(cat, e) ==> r == Ok::<Element, EditError>(e),
        !category_matches(cat, e) ==> r == Err::<Element, EditError>(EditError::InvalidStructure),
{
    if e.is_node() && e.kind() == category_kind_exec(cat) {
        Ok(e)
    } else {
        Err(EditError::InvalidStructure)
    }
}

fn category_kind_exec(cat: Category) -> (r: SyntaxKind)
    ensures
        r == category_kind(cat),
{
    match cat {
        Category::RecordFieldList => SyntaxKind::RecordFieldList,
        Category::ItemList => SyntaxKind::ItemList,
        Category::ImplItem => SyntaxKind::FnDef,
        Category::TypeParam => SyntaxKind::TypeParam,
        Category::FnDef => SyntaxKind::FnDef,
    }
}

/// The first index at or after `i` whose element satisfies `p`, or `-1`.
pub open spec fn first_idx_from(cs: Seq<Element>, i: int, p: spec_fn(Element) -> bool) -> int
    decreases cs.len() - i,
{
    if i < 0 || i >= cs.len() {
        -1
    } else if p(cs[i]) {
        i
    } else {
        first_idx_from(cs, i + 1, p)
    }
}

pub proof fn lemma_first_idx_from(cs: Seq<Element>, i: int, p: spec_fn(Element) -> bool)
    requires
        0 <= i,
    ensures
        ({
            let r = first_idx_from(cs, i, p);
            &&& -1 <= r < cs.len()
            &&& (r == -1 ==> forall|j: int| i <= j < cs.len() ==> !p(#[trigger] cs[j]))
            &&& (r >= 0 ==> i <= r < cs.len() && p(cs[r]) && forall|j: int|
                i <= j < r ==> !p(#[trigger] cs[j]))
        }),
    decreases cs.len() - i,
{
    if i < cs.len() && !p(cs[i]) {
        lemma_first_idx_from(cs, i + 1, p);
    }
}

/// The last index at or before `i` whose element satisfies `p`, or `-1`.
pub open spec fn last_idx_at(cs: Seq<Element>, i: int, p: spec_fn(Element) -> bool) -> int
    decreases i + 1,
{
    if i < 0 {
        -1
    } else if i >= cs.len() {
        -1
    } else if p(cs[i]) {
        i
    } else {
        last_idx_at(cs, i - 1, p)
    }
}

pub proof fn lemma_last_idx_at(cs: Seq<Element>, i: int, p: spec_fn(Element) -> bool)
    requires
        -1 <= i < cs.len(),
    ensures
        ({
            let r = last_idx_at(cs, i, p);
            &&& -1 <= r <= i
            &&& (r == -1 ==> forall|j: int| 0 <= j <= i ==> !p(#[trigger] cs[j]))
            &&& (r >= 0 ==> 0 <= r <= i && p(cs[r]) && forall|j: int|
                r < j <= i ==> !p(#[trigger] cs[j]))
        }),
    decreases i + 1,
{
    if 0 <= i && !p(cs[i]) {
        lemma_last_idx_at(cs, i - 1, p);
    }
}

/// Elements of one kind tag.
pub open spec fn kind_pred_f(k: SyntaxKind) -> spec_fn(Element) -> bool {
    |e: Element| kind_of(e) == k
}

/// Interior nodes: the items of a body-style container.
pub open spec fn node_pred_f() -> spec_fn(Element) -> bool {
    |e: Element| is_node(e)
}

/// Leading markers: attributes and comments.
pub open spec fn marker_pred_f() -> spec_fn(Element) -> bool {
    |e: Element| kind_of(e) == SyntaxKind::Attr || kind_of(e) == SyntaxKind::Comment
}

/// The first direct child at or after `from` with kind `k`.
fn find_first_kind_from(parent: &Element, from: usize, k: SyntaxKind) -> (r: Option<usize>)
    requires
        is_node(*parent),
        from <= children_of(*parent).len(),
    ensures
        children_of(*parent).len() <= usize::MAX,
        ({
            let f = first_idx_from(children_of(*parent), from as int, kind_pred_f(k));
            match r {
                Some(i) => f == i && i < children_of(*parent).len(),
                None => f == -1,
            }
        }),
{
    let ghost cs = children_of(*parent);
    let ghost p = kind_pred_f(k);
    let len = parent.n_children();
    for i in from..len
        invariant
            is_node(*parent),
            cs == children_of(*parent),
            p == kind_pred_f(k),
            from <= i <= len,
            len == cs.len(),
            forall|j: int| from <= j < i ==> !p(#[trigger] cs[j]),
    {
        if parent.child(i).kind() == k {
            proof {
                assert(p(cs[i as int]));
                lemma_first_idx_from(cs, from as int, p);
            }
            return Some(i);
        }
        proof {
            assert(!p(cs[i as int]));
        }
    }
    proof {
        lemma_first_idx_from(cs, from as int, p);
    }
    None
}

/// The last direct child with kind `k`.
fn find_last_kind(parent: &Element, k: SyntaxKind) -> (r: Option<usize>)
    requires
        is_node(*parent),
    ensures
        children_of(*parent).len() <= usize::MAX,
        ({
            let cs = children_of(*parent);
            let f = last_idx_at(cs, cs.len() - 1, kind_pred_f(k));
            match r {
                Some(i) => f == i && i < cs.len(),
                None => f == -1,
            }
        }),
{
    let ghost cs = children_of(*parent);
    let ghost p = kind_pred_f(k);
    let len = parent.n_children();
    let mut i = len;
    while i > 0
        invariant
            is_node(*parent),
            cs == children_of(*parent),
            p == kind_pred_f(k),
            i <= len,
            len == cs.len(),
            forall|j: int| i <= j < cs.len() ==> !p(#[trigger] cs[j]),
        decreases i,
    {
        i = i - 1;
        if parent.child(i).kind() == k {
            proof {
                assert(p(cs[i as int]));
                lemma_last_idx_at(cs, cs.len() - 1, p);
            }
            return Some(i);
        }
        proof {
            assert(!p(cs[i as int]));
        }
    }
    proof {
        lemma_last_idx_at(cs, cs.len() - 1, p);
    }
    None
}

/// The last direct child that is a node.
fn find_last_node(parent: &Element) -> (r: Option<usize>)
    requires
        is_node(*parent),
    ensures
        children_of(*parent).len() <= usize::MAX,
        ({
            let cs = children_of(*parent);
            let f = last_idx_at(cs, cs.len() - 1, node_pred_f());
            match r {
                Some(i) => f == i && i < cs.len(),
                None => f == -1,
            }
        }),
{
    let ghost cs = children_of(*parent);
    let ghost p = node_pred_f();
    let len = parent.n_children();
    let mut i = len;
    while i > 0
        invariant
            is_node(*parent),
            cs == children_of(*parent),
            p == node_pred_f(),
            i <= len,
            len == cs.len(),
            forall|j: int| i <= j < cs.len() ==> !p(#[trigger] cs[j]),
        decreases i,
    {
        i = i - 1;
        if parent.child(i).is_node() {
            proof {
                assert(p(cs[i as int]));
                lemma_last_idx_at(cs, cs.len() - 1, p);
            }
            return Some(i);
        }
        proof {
            assert(!p(cs[i as int]));
        }
    }
    proof {
        lemma_last_idx_at(cs, cs.len() - 1, p);
    }
    None
}

/// The first direct child that is an attribute or a comment.
fn find_first_marker(parent: &Element) -> (r: Option<usize>)
    requires
        is_node(*parent),
    ensures
        children_of(*parent).len() <= usize::MAX,
        ({
            let f = first_idx_from(children_of(*parent), 0, marker_pred_f());
            match r {
                Some(i) => f == i && i < children_of(*parent).len(),
                None => f == -1,
            }
        }),
{
    let ghost cs = children_of(*parent);
    let ghost p = marker_pred_f();
    let len = parent.n_children();
    for i in 0..len
        invariant
            is_node(*parent),
            cs == children_of(*parent),
            p == marker_pred_f(),
            i <= len,
            len == cs.len(),
            forall|j: int| 0 <= j < i ==> !p(#[trigger] cs[j]),
    {
        let k = parent.child(i).kind();
        if k == SyntaxKind::Attr || k == SyntaxKind::Comment {
            proof {
                assert(p(cs[i as int]));
                lemma_first_idx_from(cs, 0, p);
            }
            return Some(i);
        }
        proof {
            assert(!p(cs[i as int]));
        }
    }
    proof {
        lemma_first_idx_from(cs, 0, p);
    }
    None
}

/// A token of one kind with one literal text.
pub open spec fn is_kind_token(e: Element, k: SyntaxKind, text: Seq<u8>) -> bool {
    is_token(e) && kind_of(e) == k && token_text(e) == text
}

/// A fresh single-space token.
fn space_token() -> (r: Element)
    ensures
        is_kind_token(r, SyntaxKind::Whitespace, seq![32u8]),
{
    let mut t: Vec<u8> = Vec::new();
    t.push(32u8);
    proof {
        assert(t@ =~= seq![32u8]);
    }
    Element::new_token(SyntaxKind::Whitespace, t)
}

/// A fresh `,` token.
fn comma_token() -> (r: Element)
    ensures
        is_kind_token(r, SyntaxKind::Comma, seq![44u8]),
{
    let mut t: Vec<u8> = Vec::new();
    t.push(44u8);
    proof {
        assert(t@ =~= seq![44u8]);
    }
    Element::new_token(SyntaxKind::Comma, t)
}

/// Where a field insertion lands: nowhere (the list has no opening brace to
/// anchor on), or at child index `k`, preceded by a fresh separator when the
/// anchor field had none (`lead`), followed by a separator when the list is
/// multiline or another field follows the landing site (`trail`), and
/// followed by a single space instead when a single-line list holds no field
/// yet (`pad`), so the new field does not touch the closing delimiter.
pub enum FieldPlan {
    Nop,
    At { k: int, lead: bool, trail: bool, pad: bool },
}

/// The landing site relative to the anchor field at index `a`: right after
/// the first separator that follows it, or right after the field itself.
/// The pair is the splice index and whether the anchor field needs a fresh
/// separator of its own first.
pub open spec fn after_field_site(cs: Seq<Element>, a: int) -> (int, bool) {
    let c = first_idx_from(cs, a + 1, kind_pred_f(SyntaxKind::Comma));
    if c >= 0 {
        (c + 1, false)
    } else {
        (a + 1, true)
    }
}

/// The splice index named by a field-insertion position, with the fresh-
/// separator flag; `None` when the list offers nothing to anchor on.
pub open spec fn field_site(cs: Seq<Element>, position: InsertPosition) -> Option<(int, bool)> {
    let lc = first_idx_from(cs, 0, kind_pred_f(SyntaxKind::LCurly));
    match position {
        InsertPosition::First => if lc == -1 {
            None
        } else {
            Some((lc + 1, false))
        },
        InsertPosition::Last => {
            let lf = last_idx_at(cs, cs.len() - 1, kind_pred_f(SyntaxKind::RecordField));
            if lf >= 0 {
                Some(after_field_site(cs, lf))
            } else if lc == -1 {
                None
            } else {
                Some((lc + 1, false))
            }
        },
        InsertPosition::Before(i) => Some((i as int, false)),
        InsertPosition::After(i) => Some(after_field_site(cs, i as int)),
    }
}

/// The anchor resolution of the field-list insertion policy. A multiline
/// list always gives the new field a trailing separator; a single-line list
/// gives it one exactly when a field already follows it, and pads a list
/// with no field at all with a single space before the closing delimiter.
pub open spec fn field_plan(cs: Seq<Element>, multiline: bool, position: InsertPosition) -> FieldPlan {
    match field_site(cs, position) {
        None => FieldPlan::Nop,
        Some((k, lead)) => {
            let follows = first_idx_from(cs, k, kind_pred_f(SyntaxKind::RecordField)) >= 0;
            let any = first_idx_from(cs, 0, kind_pred_f(SyntaxKind::RecordField)) >= 0;
            FieldPlan::At { k, lead, trail: multiline || follows, pad: !multiline && !any }
        },
    }
}

/// The whitespace put before an inserted field: a line break, the list's own
/// indentation and one extra level when the list is multiline, a single
/// space otherwise.
pub open spec fn field_space_text(multiline: bool, indent: Seq<u8>) -> Seq<u8> {
    if multiline {
        seq![10u8] + indent + seq![32u8, 32u8, 32u8, 32u8]
    } else {
        seq![32u8]
    }
}

/// `cs2` is `cs` with a field insertion at `k`: an optional fresh leading
/// separator, the whitespace, the field, and an optional trailing separator
/// or padding space, all other children carried over unchanged.
pub open spec fn field_inserted(
    cs: Seq<Element>,
    cs2: Seq<Element>,
    k: int,
    lead: bool,
    space: Seq<u8>,
    field: Element,
    trail: bool,
    pad: bool,
) -> bool {
    let li: int = if lead {
        1
    } else {
        0
    };
    let ti: int = if trail {
        1
    } else {
        0
    };
    let pi: int = if pad {
        1
    } else {
        0
    };
    &&& 0 <= k <= cs.len()
    &&& cs2.len() == cs.len() + 2 + li + ti + pi
    &&& cs2.subrange(0, k) == cs.subrange(0, k)
    &&& (lead ==> is_kind_token(cs2[k], SyntaxKind::Comma, seq![44u8]))
    &&& is_kind_token(cs2[k + li], SyntaxKind::Whitespace, space)
    &&& cs2[k + li + 1] == field
    &&& (trail ==> is_kind_token(cs2[k + li + 2], SyntaxKind::Comma, seq![44u8]))
    &&& (pad ==> is_kind_token(cs2[k + li + 2], SyntaxKind::Whitespace, seq![32u8]))
    &&& cs2.subrange(k + li + 2 + ti + pi, cs2.len() as int) == cs.subrange(k, cs.len() as int)
}

/// How a container is forced onto several lines: not at all (no opening
/// brace, no sibling after it, or a line break already follows it), by
/// inserting a fresh line-break token right after the brace, or by replacing
/// the single-line whitespace that follows the brace.
pub enum MultilinePlan {
    Nop,
    InsertAfter(int),
    ReplaceAt(int),
}

/// The decision of `do_make_multiline` over a child sequence.
pub open spec fn multiline_plan(cs: Seq<Element>) -> MultilinePlan {
    let lc = first_idx_from(cs, 0, kind_pred_f(SyntaxKind::LCurly));
    if lc == -1 || lc + 1 >= cs.len() {
        MultilinePlan::Nop
    } else {
        let sib = cs[lc + 1];
        if is_token(sib) && kind_of(sib) == SyntaxKind::Whitespace {
            if token_text(sib).contains(10u8) {
                MultilinePlan::Nop
            } else {
                MultilinePlan::ReplaceAt(lc + 1)
            }
        } else {
            MultilinePlan::InsertAfter(lc)
        }
    }
}

/// `cs2` is `cs` with `removed` children at `k` replaced by one fresh token
/// of the given kind and text.
pub open spec fn one_token_spliced(
    cs: Seq<Element>,
    cs2: Seq<Element>,
    k: int,
    removed: int,
    kind: SyntaxKind,
    text: Seq<u8>,
) -> bool {
    &&& 0 <= k && k + removed <= cs.len()
    &&& cs2.len() == cs.len() - removed + 1
    &&& cs2.subrange(0, k) == cs.subrange(0, k)
    &&& is_kind_token(cs2[k], kind, text)
    &&& cs2.subrange(k + 1, cs2.len() as int) == cs.subrange(k + removed, cs.len() as int)
}

/// How one forced line break relates an element to its multiline form.
pub open spec fn multiline_rel(a: Element, b: Element) -> bool {
    let nl = seq![10u8] + line_indent_at(render(a), 0);
    &&& is_node(b)
    &&& kind_of(b) == kind_of(a)
    &&& match multiline_plan(children_of(a)) {
        MultilinePlan::Nop => b == a,
        MultilinePlan::InsertAfter(lc) => one_token_spliced(
            children_of(a),
            children_of(b),
            lc + 1,
            0,
            SyntaxKind::Whitespace,
            nl,
        ),
        MultilinePlan::ReplaceAt(i) => one_token_spliced(
            children_of(a),
            children_of(b),
            i,
            1,
            SyntaxKind::Whitespace,
            nl,
        ),
    }
}

/// The children left after repeatedly deleting the first attribute-or-
/// comment child together with one immediately following whitespace token.
pub open spec fn stripped(cs: Seq<Element>) -> Seq<Element>
    decreases cs.len(),
{
    let a = first_idx_from(cs, 0, marker_pred_f());
    if a < 0 || a >= cs.len() {
        cs
    } else {
        let rm: int = if a + 1 < cs.len() && is_token(cs[a + 1]) && kind_of(cs[a + 1])
            == SyntaxKind::Whitespace {
            2
        } else {
            1
        };
        stripped(cs.subrange(0, a) + cs.subrange(a + rm, cs.len() as int))
    }
}

/// The byte offset at which the `i`-th child starts within its parent's
/// rendering.
pub open spec fn child_offset(cs: Seq<Element>, i: int) -> int {
    render_seq(cs, 0).len() - render_seq(cs, i).len()
}

/// Where an appended item lands: nowhere (an empty container with no
/// opening brace), or at child index `k` preceded by a line break carrying
/// the given whitespace text.
pub enum ItemPlan {
    Nop,
    At { k: int, ws: Seq<u8> },
}

/// The anchor resolution of the item-list append policy: after the last
/// existing item, indented as that item is; in an empty list, after the
/// opening brace, indented one level past the container.
pub open spec fn item_plan(cs: Seq<Element>, rendered: Seq<u8>) -> ItemPlan {
    let li = last_idx_at(cs, cs.len() - 1, node_pred_f());
    if li >= 0 {
        ItemPlan::At { k: li + 1, ws: seq![10u8] + line_indent_at(rendered, child_offset(cs, li)) }
    } else {
        let lc = first_idx_from(cs, 0, kind_pred_f(SyntaxKind::LCurly));
        if lc == -1 {
            ItemPlan::Nop
        } else {
            ItemPlan::At {
                k: lc + 1,
                ws: seq![10u8] + seq![32u8, 32u8, 32u8, 32u8] + line_indent_at(rendered, 0),
            }
        }
    }
}

/// `cs2` is `cs` with a whitespace token and an item inserted at `k`.
pub open spec fn item_appended(
    cs: Seq<Element>,
    cs2: Seq<Element>,
    k: int,
    ws: Seq<u8>,
    item: Element,
) -> bool {
    &&& 0 <= k <= cs.len()
    &&& cs2.len() == cs.len() + 2
    &&& cs2.subrange(0, k) == cs.subrange(0, k)
    &&& is_kind_token(cs2[k], SyntaxKind::Whitespace, ws)
    &&& cs2[k + 1] == item
    &&& cs2.subrange(k + 2, cs2.len() as int) == cs.subrange(k, cs.len() as int)
}

/// How one item append relates a container to its successor.
pub open spec fn append_item_rel(a: Element, item: Element, b: Element) -> bool {
    match item_plan(children_of(a), render(a)) {
        ItemPlan::Nop => b == a,
        ItemPlan::At { k, ws } => is_node(b) && kind_of(b) == kind_of(a) && item_appended(
            children_of(a),
            children_of(b),
            k,
            ws,
            item,
        ),
    }
}

/// `b` is `a` after appending each element of `items` in turn.
pub open spec fn is_append_chain(a: Element, items: Seq<Element>, b: Element) -> bool
    decreases items.len(),
{
    if items.len() == 0 {
        b == a
    } else {
        exists|mid: Element|
            (#[trigger] append_item_rel(a, items[0], mid)) && is_append_chain(
                mid,
                items.drop_first(),
                b,
            )
    }
}

/// Appending one more item extends an append chain.
pub proof fn lemma_chain_snoc(a: Element, s: Seq<Element>, b: Element, x: Element, c: Element)
    requires
        is_append_chain(a, s, b),
        append_item_rel(b, x, c),
    ensures
        is_append_chain(a, s.push(x), c),
    decreases s.len(),
{
    if s.len() == 0 {
        assert(s.push(x)[0] == x);
        assert(s.push(x).drop_first() =~= Seq::<Element>::empty());
        assert(append_item_rel(a, s.push(x)[0], c) && is_append_chain(c, s.push(x).drop_first(), c));
    } else {
        let mid = choose|mid: Element|
            (#[trigger] append_item_rel(a, s[0], mid)) && is_append_chain(
                mid,
                s.drop_first(),
                b,
            );
        lemma_chain_snoc(mid, s.drop_first(), b, x, c);
        assert(s.push(x).drop_first() =~= s.drop_first().push(x));
        assert(s.push(x)[0] == s[0]);
        assert(append_item_rel(a, s.push(x)[0], mid) && is_append_chain(
            mid,
            s.push(x).drop_first(),
            c,
        ));
    }
}

/// The line break forced before any items are appended: none when the
/// container already renders on several lines.
pub open spec fn multiline_step(a: Element, b: Element) -> bool {
    if render(a).contains(10u8) {
        b == a
    } else {
        multiline_rel(a, b)
    }
}

/// The byte offset at which the `idx`-th child of `parent` starts within
/// `parent`'s rendering.
fn child_offset_exec(parent: &Element, idx: usize) -> (r: usize)
    requires
        is_node(*parent),
        idx <= children_of(*parent).len(),
        render(*parent).len() <= usize::MAX,
    ensures
        r as int == child_offset(children_of(*parent), idx as int),
        r <= render(*parent).len(),
{
    let ghost cs = children_of(*parent);
    proof {
        assert(render(*parent) == render_seq(cs, 0));
    }
    let mut acc: usize = 0;
    for j in 0..idx
        invariant
            is_node(*parent),
            cs == children_of(*parent),
            idx <= cs.len(),
            render(*parent) == render_seq(cs, 0),
            render(*parent).len() <= usize::MAX,
            acc + render_seq(cs, j as int).len() == render(*parent).len(),
    {
        proof {
            assert(render_seq(cs, j as int) == render(cs[j as int]) + render_seq(cs, j + 1));
        }
        let cb = render_bytes(parent.child(j));
        acc = acc + cb.len();
    }
    acc
}

/// An editing session: `original_ast` is frozen at construction and never
/// touched again; `ast` is replaced wholesale by each successful edit.
pub struct AstEditor {
    cat: Category,
    original_ast: Element,
    ast: Element,
}

impl AstEditor {
    /// The grammar category the session was opened with.
    pub closed spec fn category(self) -> Category {
        self.cat
    }

    /// The frozen baseline node.
    pub closed spec fn baseline(self) -> Element {
        self.original_ast
    }

    /// The current, edited node.
    pub closed spec fn current(self) -> Element {
        self.ast
    }

    /// Baseline and current always denote the same grammar category.
    pub open spec fn wf(self) -> bool {
        category_matches(self.category(), self.baseline()) && category_matches(
            self.category(),
            self.current(),
        )
    }

    /// Open a session on one typed node: the baseline is frozen as the node
    /// stands now, and the current version starts equal to it.
    pub fn new(cat: Category, node: Element) -> (r: AstEditor)
        requires
            category_matches(cat, node),
        ensures
            r.wf(),
            r.category() == cat,
            r.baseline() == node,
            r.current() == node,
    {
        let original_ast = node.duplicate();
        AstEditor { cat, original_ast, ast: node }
    }

    /// A borrow of the current version.
    pub fn ast(&self) -> (r: &Element)
        ensures
            *r == self.current(),
    {
        &self.ast
    }

    /// Finalize the session: the ordered, pairwise-disjoint patch that
    /// rewrites the baseline's rendered text into the current version's
    /// rendered text. A session with no effective edit yields the empty
    /// patch.
    pub fn into_text_edit(self) -> (r: Vec<PatchEntry>)
        requires
            render(self.baseline()).len() <= usize::MAX,
            render(self.current()).len() <= usize::MAX,
        ensures
            wf_patches(r@, 0, render(self.baseline()).len() as int),
            applied(render(self.baseline()), r@) == render(self.current()),
            equiv(self.baseline(), self.current()) ==> r@ == Seq::<PatchEntry>::empty(),
    {
        diff(&self.original_ast, &self.ast)
    }

    /// End the session without producing a patch: the baseline and every
    /// edit made so far are dropped.
    pub fn discard(self) {
    }

    /// Replace, top-down, every descendant of the current version that is
    /// identical (same allocation, never mere value equality) to a
    /// substitution key by the matching value: only elements actually
    /// obtained from this tree can match. When the substituted tree would
    /// leave the session's category — a defect in the calling code — the
    /// edit is refused with `InvalidStructure` and the current version kept.
    pub fn replace_descendants(&mut self, subs: &Vec<(Element, Element)>) -> (r: Result<
        (),
        EditError,
    >)
        requires
            old(self).wf(),
        ensures
            final(self).wf(),
            final(self).category() == old(self).category(),
            final(self).baseline() == old(self).baseline(),
            exists|x: Element|
                {
                    &&& #[trigger] is_ident_subst(old(self).current(), subs@, x)
                    &&& if category_matches(old(self).category(), x) {
                        final(self).current() == x && r == Ok::<(), EditError>(())
                    } else {
                        final(self).current() == old(self).current() && r == Err::<
                            (),
                            EditError,
                        >(EditError::InvalidStructure)
                    }
                },
    {
        let replaced = replace_descendants_elem(&self.ast, subs);
        let ghost x = replaced;
        if replaced.is_node() && replaced.kind() == category_kind_exec(self.cat) {
            self.ast = replaced;
            proof {
                assert(is_ident_subst(old(self).current(), subs@, x) && category_matches(
                    old(self).category(),
                    x,
                ));
            }
            Ok(())
        } else {
            proof {
                assert(is_ident_subst(old(self).current(), subs@, x) && !category_matches(
                    old(self).category(),
                    x,
                ));
            }
            Err(EditError::InvalidStructure)
        }
    }

    /// The index of the current version's first opening-brace child.
    pub fn l_curly(&self) -> (r: Option<usize>)
        requires
            self.wf(),
        ensures
            ({
                let f = first_idx_from(
                    children_of(self.current()),
                    0,
                    kind_pred_f(SyntaxKind::LCurly),
                );
                match r {
                    Some(i) => f == i && i < children_of(self.current()).len(),
                    None => f == -1,
                }
            }),
    {
        find_first_kind_from(&self.ast, 0, SyntaxKind::LCurly)
    }

    /// Append a field at the end of a record field list, following the
    /// list's separator and line-break conventions.
    pub fn append_field(&mut self, field: &Element)
        requires
            old(self).wf(),
            old(self).category() == Category::RecordFieldList,
            render(old(self).current()).len() <= usize::MAX,
            is_node(*field),
            kind_of(*field) == SyntaxKind::RecordField,
        ensures
            final(self).wf(),
            final(self).category() == old(self).category(),
            final(self).baseline() == old(self).baseline(),
            ({
                let cs = children_of(old(self).current());
                let m = render(old(self).current()).contains(10u8);
                let ind = line_indent_at(render(old(self).current()), 0);
                match field_plan(cs, m, InsertPosition::Last) {
                    FieldPlan::Nop => final(self).current() == old(self).current(),
                    FieldPlan::At { k, lead, trail, pad } => field_inserted(
                        cs,
                        children_of(final(self).current()),
                        k,
                        lead,
                        field_space_text(m, ind),
                        *field,
                        trail,
                        pad,
                    ),
                }
            }),
    {
        self.insert_field(InsertPosition::Last, field)
    }

    /// Insert a field into a record field list at the given position. If the
    /// list is multiline the field goes on a line of its own, indented one
    /// level past the list, with a trailing separator; otherwise fields are
    /// separated by single spaces and the new field carries a trailing
    /// separator only when a field already follows it — in a list with no
    /// field yet, a single space pads the closing delimiter instead. An
    /// anchor field without a following separator first receives a fresh
    /// one.
    #[verifier::rlimit(100)]
    pub fn insert_field(&mut self, position: InsertPosition, field: &Element)
        requires
            old(self).wf(),
            old(self).category() == Category::RecordFieldList,
            render(old(self).current()).len() <= usize::MAX,
            is_node(*field),
            kind_of(*field) == SyntaxKind::RecordField,
            match position {
                InsertPosition::Before(i) => i < children_of(old(self).current()).len() && kind_of(
                    children_of(old(self).current())[i as int],
                ) == SyntaxKind::RecordField,
                InsertPosition::After(i) => i < children_of(old(self).current()).len() && kind_of(
                    children_of(old(self).current())[i as int],
                ) == SyntaxKind::RecordField,
                _ => true,
            },
        ensures
            final(self).wf(),
            final(self).category() == old(self).category(),
            final(self).baseline() == old(self).baseline(),
            ({
                let cs = children_of(old(self).current());
                let m = render(old(self).current()).contains(10u8);
                let ind = line_indent_at(render(old(self).current()), 0);
                match field_plan(cs, m, position) {
                    FieldPlan::Nop => final(self).current() == old(self).current(),
                    FieldPlan::At { k, lead, trail, pad } => field_inserted(
                        cs,
                        children_of(final(self).current()),
                        k,
                        lead,
                        field_space_text(m, ind),
                        *field,
                        trail,
                        pad,
                    ),
                }
            }),
    {
        let ghost cs = children_of(old(self).current());
        let ghost m = render(old(self).current()).contains(10u8);
        let ghost ind = line_indent_at(render(old(self).current()), 0);
        let n_now = self.ast.n_children();
        proof {
            assert(cs.len() == n_now as int);
        }
        let multiline = contains_newline(&self.ast);
        let rendered = render_bytes(&self.ast);
        let indent = line_indent(&rendered, 0);
        let mut space_text: Vec<u8> = Vec::new();
        if multiline {
            space_text.push(10u8);
            push_bytes(&mut space_text, &indent);
            space_text.push(32u8);
            space_text.push(32u8);
            space_text.push(32u8);
            space_text.push(32u8);
        } else {
            space_text.push(32u8);
        }
        proof {
            assert(space_text@ =~= field_space_text(m, ind));
        }
        let space = Element::new_token(SyntaxKind::Whitespace, space_text);
        let mut buf = av_new();
        av_push(&mut buf, space);
        av_push(&mut buf, field.duplicate());
        let k_exec: usize;
        let lead: bool;
        match position {
            InsertPosition::First => {
                match find_first_kind_from(&self.ast, 0, SyntaxKind::LCurly) {
                    None => {
                        return ;
                    },
                    Some(lc) => {
                        k_exec = lc + 1;
                        lead = false;
                    },
                }
            },
            InsertPosition::Last => {
                match find_last_kind(&self.ast, SyntaxKind::RecordField) {
                    Some(lf) => {
                        match find_first_kind_from(&self.ast, lf + 1, SyntaxKind::Comma) {
                            Some(c) => {
                                k_exec = c + 1;
                                lead = false;
                            },
                            None => {
                                k_exec = lf + 1;
                                lead = true;
                            },
                        }
                    },
                    None => {
                        match find_first_kind_from(&self.ast, 0, SyntaxKind::LCurly) {
                            None => {
                                return ;
                            },
                            Some(lc) => {
                                k_exec = lc + 1;
                                lead = false;
                            },
                        }
                    },
                }
            },
            InsertPosition::Before(i) => {
                k_exec = i;
                lead = false;
            },
            InsertPosition::After(i) => {
                match find_first_kind_from(&self.ast, i + 1, SyntaxKind::Comma) {
                    Some(c) => {
                        k_exec = c + 1;
                        lead = false;
                    },
                    None => {
                        k_exec = i + 1;
                        lead = true;
                    },
                }
            },
        }
        let trail = multiline || find_first_kind_from(
            &self.ast,
            k_exec,
            SyntaxKind::RecordField,
        ).is_some();
        let any = find_first_kind_from(&self.ast, 0, SyntaxKind::RecordField).is_some();
        let pad = !multiline && !any;
        proof {
            let p = kind_pred_f(SyntaxKind::RecordField);
            lemma_first_idx_from(cs, 0, p);
            lemma_first_idx_from(cs, k_exec as int, p);
            lemma_last_idx_at(cs, cs.len() - 1, p);
            match position {
                InsertPosition::Before(i) => {
                    assert(p(cs[i as int]));
                },
                InsertPosition::After(i) => {
                    assert(p(cs[i as int]));
                },
                _ => {},
            }
            assert(pad ==> !trail && !lead);
            assert(field_plan(cs, m, position) == FieldPlan::At {
                k: k_exec as int,
                lead,
                trail,
                pad,
            });
        }
        if trail {
            av_push(&mut buf, comma_token());
        }
        if pad {
            av_push(&mut buf, space_token());
        }
        if lead {
            av_insert(&mut buf, 0, comma_token());
        }
        let ins = av_into_vec(buf);
        let result = insert_at(&self.ast, k_exec, &ins);
        match result {
            Ok(x) => {
                let ghost li: int = if lead {
                    1
                } else {
                    0
                };
                let ghost ti: int = if trail {
                    1
                } else {
                    0
                };
                let ghost pi: int = if pad {
                    1
                } else {
                    0
                };
                proof {
                    assert(children_of(x).subrange(0, k_exec as int) =~= cs.subrange(
                        0,
                        k_exec as int,
                    ));
                    assert(children_of(x).subrange(
                        k_exec + li + 2 + ti + pi,
                        children_of(x).len() as int,
                    ) =~= cs.subrange(k_exec as int, cs.len() as int));
                }
                self.ast = x;
            },
            Err(_) => {
                proof {
                    assert(false);
                }
            },
        }
    }

    /// Append one item at the end of a body-style container: on a fresh
    /// line, indented as the previous last item is, or one level past the
    /// container when it has no item yet. A no-op on a container with no
    /// item and no opening brace.
    pub fn append_item(&mut self, item: Element)
        requires
            old(self).wf(),
            old(self).category() == Category::ItemList,
            render(old(self).current()).len() <= usize::MAX,
            is_node(item),
        ensures
            final(self).wf(),
            final(self).category() == old(self).category(),
            final(self).baseline() == old(self).baseline(),
            append_item_rel(old(self).current(), item, final(self).current()),
    {
        let ghost cs = children_of(old(self).current());
        let n_now = self.ast.n_children();
        proof {
            assert(cs.len() == n_now as int);
        }
        let rendered = render_bytes(&self.ast);
        let k_exec: usize;
        let mut ws_text: Vec<u8> = Vec::new();
        ws_text.push(10u8);
        match find_last_node(&self.ast) {
            Some(li) => {
                let off = child_offset_exec(&self.ast, li);
                let indent = line_indent(&rendered, off);
                push_bytes(&mut ws_text, &indent);
                k_exec = li + 1;
                proof {
                    assert(ws_text@ =~= seq![10u8] + line_indent_at(
                        render(old(self).current()),
                        child_offset(cs, li as int),
                    ));
                }
            },
            None => {
                match find_first_kind_from(&self.ast, 0, SyntaxKind::LCurly) {
                    None => {
                        return ;
                    },
                    Some(lc) => {
                        ws_text.push(32u8);
                        ws_text.push(32u8);
                        ws_text.push(32u8);
                        ws_text.push(32u8);
                        let indent = line_indent(&rendered, 0);
                        push_bytes(&mut ws_text, &indent);
                        k_exec = lc + 1;
                        proof {
                            assert(ws_text@ =~= seq![10u8] + seq![32u8, 32u8, 32u8, 32u8]
                                + line_indent_at(render(old(self).current()), 0));
                        }
                    },
                }
            },
        }
        proof {
            assert(item_plan(cs, render(old(self).current())) == ItemPlan::At {
                k: k_exec as int,
                ws: ws_text@,
            });
        }
        let ws_tok = Element::new_token(SyntaxKind::Whitespace, ws_text);
        let mut buf = av_new();
        av_push(&mut buf, ws_tok);
        av_push(&mut buf, item);
        let ins = av_into_vec(buf);
        match insert_at(&self.ast, k_exec, &ins) {
            Ok(x) => {
                proof {
                    assert(children_of(x).subrange(0, k_exec as int) =~= cs.subrange(
                        0,
                        k_exec as int,
                    ));
                    assert(children_of(x).subrange(k_exec + 2, children_of(x).len() as int)
                        =~= cs.subrange(k_exec as int, cs.len() as int));
                }
                self.ast = x;
            },
            Err(_) => {
                proof {
                    assert(false);
                }
            },
        }
    }

    /// Append the given items in order at the end of a body-style container,
    /// first forcing the container onto several lines when it renders on
    /// one. Appending stops early only if an intermediate tree's rendering
    /// outgrows the machine's word.
    pub fn append_items(&mut self, items: &Vec<Element>)
        requires
            old(self).wf(),
            old(self).category() == Category::ItemList,
            render(old(self).current()).len() <= usize::MAX,
            forall|i: int| 0 <= i < items@.len() ==> is_node(#[trigger] items@[i]),
        ensures
            final(self).wf(),
            final(self).category() == old(self).category(),
            final(self).baseline() == old(self).baseline(),
            exists|mid: Element, n: int|
                {
                    &&& multiline_step(old(self).current(), mid)
                    &&& 0 <= n <= items@.len()
                    &&& #[trigger] is_append_chain(mid, items@.take(n), final(self).current())
                    &&& (n < items@.len() ==> render(final(self).current()).len() > usize::MAX)
                },
    {
        if !contains_newline(&self.ast) {
            self.do_make_multiline();
        }
        let ghost mid = self.current();
        proof {
            assert(multiline_step(old(self).current(), mid));
            assert(items@.take(0) =~= Seq::<Element>::empty());
        }
        let len = items.len();
        let mut idx: usize = 0;
        let mut stopped = false;
        while idx < len && !stopped
            invariant
                self.wf(),
                self.category() == old(self).category(),
                self.category() == Category::ItemList,
                self.baseline() == old(self).baseline(),
                idx <= len,
                len == items@.len(),
                forall|i: int| 0 <= i < items@.len() ==> is_node(#[trigger] items@[i]),
                is_append_chain(mid, items@.take(idx as int), self.current()),
                stopped ==> render(self.current()).len() > usize::MAX,
            decreases (len - idx) * 2 + (if stopped {
                0int
            } else {
                1int
            }),
        {
            match try_render_len(&self.ast) {
                None => {
                    stopped = true;
                },
                Some(_) => {
                    let ghost prev = self.current();
                    let it = items[idx].duplicate();
                    self.append_item(it);
                    proof {
                        lemma_chain_snoc(
                            mid,
                            items@.take(idx as int),
                            prev,
                            items@[idx as int],
                            self.current(),
                        );
                        assert(items@.take(idx + 1) =~= items@.take(idx as int).push(
                            items@[idx as int],
                        ));
                    }
                    idx = idx + 1;
                },
            }
        }
        proof {
            assert(is_append_chain(mid, items@.take(idx as int), self.current()));
        }
    }

    /// Force the current container onto several lines: insert a line break
    /// (with the container's own indentation) right after the opening brace,
    /// replacing a single-line whitespace token that already follows it. A
    /// no-op without an opening brace, without any sibling after it, or when
    /// a line break already follows it.
    pub fn do_make_multiline(&mut self)
        requires
            old(self).wf(),
            render(old(self).current()).len() <= usize::MAX,
        ensures
            final(self).wf(),
            final(self).category() == old(self).category(),
            final(self).baseline() == old(self).baseline(),
            multiline_rel(old(self).current(), final(self).current()),
    {
        let lc = match find_first_kind_from(&self.ast, 0, SyntaxKind::LCurly) {
            None => {
                return ;
            },
            Some(lc) => lc,
        };
        let len = self.ast.n_children();
        if lc + 1 >= len {
            return ;
        }
        let mut existing = false;
        {
            let sib = self.ast.child(lc + 1);
            if !sib.is_node() && sib.kind() == SyntaxKind::Whitespace {
                if crate::text::bytes_contains(sib.text_bytes(), 10u8) {
                    return ;
                }
                existing = true;
            }
        }
        let rendered = render_bytes(&self.ast);
        let indent = line_indent(&rendered, 0);
        let mut t: Vec<u8> = Vec::new();
        t.push(10u8);
        push_bytes(&mut t, &indent);
        proof {
            assert(t@ =~= seq![10u8] + line_indent_at(render(old(self).current()), 0));
        }
        let ws = Element::new_token(SyntaxKind::Whitespace, t);
        let mut ins: Vec<Element> = Vec::new();
        ins.push(ws);
        if existing {
            match replace_children(&self.ast, lc + 1, lc + 1, &ins) {
                Ok(x) => {
                    proof {
                        assert(children_of(x).subrange(0, lc + 1) =~= children_of(
                            old(self).current(),
                        ).subrange(0, lc + 1));
                        assert(children_of(x).subrange(lc + 2, children_of(x).len() as int)
                            =~= children_of(old(self).current()).subrange(
                            lc + 2,
                            children_of(old(self).current()).len() as int,
                        ));
                    }
                    self.ast = x;
                },
                Err(_) => {
                    proof {
                        assert(false);
                    }
                },
            }
        } else {
            match insert_at(&self.ast, lc + 1, &ins) {
                Ok(x) => {
                    proof {
                        assert(children_of(x).subrange(0, lc + 1) =~= children_of(
                            old(self).current(),
                        ).subrange(0, lc + 1));
                        assert(children_of(x).subrange(lc + 2, children_of(x).len() as int)
                            =~= children_of(old(self).current()).subrange(
                            lc + 1,
                            children_of(old(self).current()).len() as int,
                        ));
                    }
                    self.ast = x;
                },
                Err(_) => {
                    proof {
                        assert(false);
                    }
                },
            }
        }
    }

    /// Repeatedly delete the first remaining attribute or comment child, in
    /// document order, together with a single immediately following
    /// whitespace token if present, until none remain.
    pub fn strip_attrs_and_docs(&mut self)
        requires
            old(self).wf(),
            old(self).category() == Category::ImplItem,
        ensures
            final(self).wf(),
            final(self).category() == old(self).category(),
            final(self).baseline() == old(self).baseline(),
            children_of(final(self).current()) == stripped(children_of(old(self).current())),
    {
        let ghost cs0 = children_of(old(self).current());
        let mut go = true;
        while go
            invariant
                self.wf(),
                self.category() == old(self).category(),
                self.baseline() == old(self).baseline(),
                stripped(children_of(self.current())) == stripped(cs0),
                !go ==> children_of(self.current()) == stripped(children_of(self.current())),
            decreases 2 * children_of(self.current()).len() + (if go {
                1int
            } else {
                0int
            }),
        {
            let ghost cs_now = children_of(self.current());
            match find_first_marker(&self.ast) {
                None => {
                    go = false;
                },
                Some(a) => {
                    let len = self.ast.n_children();
                    let mut end = a;
                    if a + 1 < len {
                        let nxt = self.ast.child(a + 1);
                        if !nxt.is_node() && nxt.kind() == SyntaxKind::Whitespace {
                            end = a + 1;
                        }
                    }
                    let empty: Vec<Element> = Vec::new();
                    match replace_children(&self.ast, a, end, &empty) {
                        Ok(x) => {
                            proof {
                                let rm = end + 1 - a as int;
                                assert(children_of(x) =~= cs_now.subrange(0, a as int)
                                    + cs_now.subrange(a + rm, cs_now.len() as int));
                            }
                            self.ast = x;
                        },
                        Err(_) => {
                            proof {
                                assert(false);
                            }
                        },
                    }
                },
            }
        }
    }

    /// Delete a type parameter's separating colon together with the bound
    /// list that follows it, as one splice, so no dangling colon remains. A
    /// no-op when the parameter has no colon.
    pub fn remove_bounds(&mut self)
        requires
            old(self).wf(),
            old(self).category() == Category::TypeParam,
            ({
                let cs = children_of(old(self).current());
                let c = first_idx_from(cs, 0, kind_pred_f(SyntaxKind::Colon));
                let t = first_idx_from(cs, 0, kind_pred_f(SyntaxKind::TypeBoundList));
                c >= 0 && t >= 0 ==> c < t
            }),
        ensures
            final(self).wf(),
            final(self).category() == old(self).category(),
            final(self).baseline() == old(self).baseline(),
            ({
                let cs = children_of(old(self).current());
                let c = first_idx_from(cs, 0, kind_pred_f(SyntaxKind::Colon));
                let t = first_idx_from(cs, 0, kind_pred_f(SyntaxKind::TypeBoundList));
                if c == -1 {
                    final(self).current() == old(self).current()
                } else {
                    let end = if t >= 0 {
                        t
                    } else {
                        c
                    };
                    children_of(final(self).current()) == cs.subrange(0, c) + cs.subrange(
                        end + 1,
                        cs.len() as int,
                    )
                }
            }),
    {
        let ghost cs = children_of(old(self).current());
        let c = match find_first_kind_from(&self.ast, 0, SyntaxKind::Colon) {
            None => {
                return ;
            },
            Some(c) => c,
        };
        let end = match find_first_kind_from(&self.ast, 0, SyntaxKind::TypeBoundList) {
            None => c,
            Some(t) => t,
        };
        let empty: Vec<Element> = Vec::new();
        match replace_children(&self.ast, c, end, &empty) {
            Ok(x) => {
                proof {
                    assert(children_of(x) =~= cs.subrange(0, c as int) + cs.subrange(
                        end + 1,
                        cs.len() as int,
                    ));
                }
                self.ast = x;
            },
            Err(_) => {
                proof {
                    assert(false);
                }
            },
        }
    }
}

/// Finalizing a session with zero edits yields the empty patch: with no
/// edit the current version still equals the baseline, so it is structurally
/// equivalent to it, and `into_text_edit` returns the empty patch for every
/// structurally equivalent pair.
pub proof fn lemma_unedited_session_equiv(ed: AstEditor)
    requires
        ed.current() == ed.baseline(),
    ensures
        equiv(ed.baseline(), ed.current()),
{
    crate::tree::lemma_equiv_reflexive(ed.baseline());
}

/// A function definition with the given block as its body: an existing body
/// is replaced in place; a trailing semicolon gives way to a space and the
/// body; otherwise a space and the body are appended at the end. The
/// original definition is not touched.
pub fn with_body(fn_def: &Element, body: Element) -> (r: Element)
    requires
        is_node(*fn_def),
        kind_of(*fn_def) == SyntaxKind::FnDef,
        is_node(body),
        kind_of(body) == SyntaxKind::Block,
    ensures
        is_node(r),
        kind_of(r) == kind_of(*fn_def),
        ({
            let cs = children_of(*fn_def);
            let cs2 = children_of(r);
            let b = first_idx_from(cs, 0, kind_pred_f(SyntaxKind::Block));
            let s = first_idx_from(cs, 0, kind_pred_f(SyntaxKind::Semicolon));
            if b >= 0 {
                &&& cs2.len() == cs.len()
                &&& cs2.subrange(0, b) == cs.subrange(0, b)
                &&& cs2[b] == body
                &&& cs2.subrange(b + 1, cs2.len() as int) == cs.subrange(b + 1, cs.len() as int)
            } else if s >= 0 {
                &&& cs2.len() == cs.len() + 1
                &&& cs2.subrange(0, s) == cs.subrange(0, s)
                &&& is_kind_token(cs2[s], SyntaxKind::Whitespace, seq![32u8])
                &&& cs2[s + 1] == body
                &&& cs2.subrange(s + 2, cs2.len() as int) == cs.subrange(s + 1, cs.len() as int)
            } else {
                &&& cs2.len() == cs.len() + 2
                &&& cs2.subrange(0, cs.len() as int) == cs
                &&& is_kind_token(cs2[cs.len() as int], SyntaxKind::Whitespace, seq![32u8])
                &&& cs2[cs.len() as int + 1] == body
            }
        }),
{
    let ghost cs = children_of(*fn_def);
    match find_first_kind_from(fn_def, 0, SyntaxKind::Block) {
        Some(b) => {
            let mut buf = av_new();
            av_push(&mut buf, body);
            let ins = av_into_vec(buf);
            match replace_children(fn_def, b, b, &ins) {
                Ok(x) => {
                    proof {
                        assert(children_of(x).subrange(0, b as int) =~= cs.subrange(0, b as int));
                        assert(children_of(x).subrange(b + 1, children_of(x).len() as int)
                            =~= cs.subrange(b + 1, cs.len() as int));
                    }
                    x
                },
                Err(_) => vstd::pervasive::unreached(),
            }
        },
        None => {
            let mut buf = av_new();
            av_push(&mut buf, space_token());
            av_push(&mut buf, body);
            let ins = av_into_vec(buf);
            match find_first_kind_from(fn_def, 0, SyntaxKind::Semicolon) {
                Some(s) => {
                    match replace_children(fn_def, s, s, &ins) {
                        Ok(x) => {
                            proof {
                                assert(children_of(x).subrange(0, s as int) =~= cs.subrange(
                                    0,
                                    s as int,
                                ));
                                assert(children_of(x).subrange(s + 2, children_of(x).len() as int)
                                    =~= cs.subrange(s + 1, cs.len() as int));
                            }
                            x
                        },
                        Err(_) => vstd::pervasive::unreached(),
                    }
                },
                None => {
                    let len = fn_def.n_children();
                    match insert_at(fn_def, len, &ins) {
                        Ok(x) => {
                            proof {
                                assert(children_of(x).subrange(0, cs.len() as int) =~= cs);
                            }
                            x
                        },
                        Err(_) => vstd::pervasive::unreached(),
                    }
                },
            }
        },
    }
}

} // verus!

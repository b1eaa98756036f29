use ast_edit::algo::{insert_children, replace_children, EditError, InsertPosition};
use ast_edit::ast_editor::{cast, with_body, AstEditor, Category};
use ast_edit::diff::apply_patch;
use ast_edit::tree::{render_bytes, Element, SyntaxKind};

fn tok(kind: SyntaxKind, text: &str) -> Element {
    Element::new_token(kind, text.as_bytes().to_vec())
}

fn node(kind: SyntaxKind, children: Vec<Element>) -> Element {
    Element::new_node(kind, children)
}

fn field(text: &str) -> Element {
    node(SyntaxKind::RecordField, vec![tok(SyntaxKind::Ident, text)])
}

fn text_of(e: &Element) -> String {
    String::from_utf8(render_bytes(e)).unwrap()
}

/// `{ a: i32 }`, as a single-line record field list.
fn single_line_list() -> Element {
    node(
        SyntaxKind::RecordFieldList,
        vec![
            tok(SyntaxKind::LCurly, "{"),
            tok(SyntaxKind::Whitespace, " "),
            field("a: i32"),
            tok(SyntaxKind::Whitespace, " "),
            tok(SyntaxKind::RCurly, "}"),
        ],
    )
}

/// `{\n    a: i32,\n}`, as a multiline record field list.
fn multi_line_list() -> Element {
    node(
        SyntaxKind::RecordFieldList,
        vec![
            tok(SyntaxKind::LCurly, "{"),
            tok(SyntaxKind::Whitespace, "\n    "),
            field("a: i32"),
            tok(SyntaxKind::Comma, ","),
            tok(SyntaxKind::Whitespace, "\n"),
            tok(SyntaxKind::RCurly, "}"),
        ],
    )
}

#[test]
fn single_line_field_append() {
    let mut ed = AstEditor::new(Category::RecordFieldList, single_line_list());
    ed.append_field(&field("b: i32"));
    assert_eq!(text_of(ed.ast()), "{ a: i32, b: i32 }");
}

#[test]
fn multiline_field_append() {
    let mut ed = AstEditor::new(Category::RecordFieldList, multi_line_list());
    ed.append_field(&field("b: i32"));
    assert_eq!(text_of(ed.ast()), "{\n    a: i32,\n    b: i32,\n}");
}

#[test]
fn empty_list_insert_first() {
    let list = node(
        SyntaxKind::RecordFieldList,
        vec![tok(SyntaxKind::LCurly, "{"), tok(SyntaxKind::RCurly, "}")],
    );
    let mut ed = AstEditor::new(Category::RecordFieldList, list);
    ed.insert_field(InsertPosition::First, &field("a: i32"));
    assert_eq!(text_of(ed.ast()), "{ a: i32 }");
}

#[test]
fn empty_list_append_last() {
    let list = node(
        SyntaxKind::RecordFieldList,
        vec![tok(SyntaxKind::LCurly, "{"), tok(SyntaxKind::RCurly, "}")],
    );
    let mut ed = AstEditor::new(Category::RecordFieldList, list);
    ed.append_field(&field("a: i32"));
    assert_eq!(text_of(ed.ast()), "{ a: i32 }");
}

#[test]
fn insert_field_before_anchor() {
    let mut ed = AstEditor::new(Category::RecordFieldList, single_line_list());
    // The existing field sits at child index 2.
    ed.insert_field(InsertPosition::Before(2), &field("z: u8"));
    assert_eq!(text_of(ed.ast()), "{  z: u8,a: i32 }");
}

#[test]
fn insert_field_after_anchor_without_comma() {
    let mut ed = AstEditor::new(Category::RecordFieldList, single_line_list());
    ed.insert_field(InsertPosition::After(2), &field("b: i32"));
    assert_eq!(text_of(ed.ast()), "{ a: i32, b: i32 }");
}

#[test]
fn forced_multiline_item_append() {
    let list = node(
        SyntaxKind::ItemList,
        vec![tok(SyntaxKind::LCurly, "{"), tok(SyntaxKind::RCurly, "}")],
    );
    let mut ed = AstEditor::new(Category::ItemList, list);
    let f = node(SyntaxKind::FnDef, vec![tok(SyntaxKind::Ident, "fn f() {}")]);
    ed.append_items(&vec![f]);
    assert_eq!(text_of(ed.ast()), "{\n    fn f() {}\n}");
}

#[test]
fn second_item_follows_first_items_indent() {
    let list = node(
        SyntaxKind::ItemList,
        vec![tok(SyntaxKind::LCurly, "{"), tok(SyntaxKind::RCurly, "}")],
    );
    let mut ed = AstEditor::new(Category::ItemList, list);
    let f = node(SyntaxKind::FnDef, vec![tok(SyntaxKind::Ident, "fn f() {}")]);
    let g = node(SyntaxKind::FnDef, vec![tok(SyntaxKind::Ident, "fn g() {}")]);
    ed.append_items(&vec![f, g]);
    assert_eq!(text_of(ed.ast()), "{\n    fn f() {}\n    fn g() {}\n}");
}

#[test]
fn marker_stripping() {
    let item = node(
        SyntaxKind::FnDef,
        vec![
            tok(SyntaxKind::Attr, "#[foo]"),
            tok(SyntaxKind::Whitespace, "\n"),
            tok(SyntaxKind::Attr, "#[bar]"),
            tok(SyntaxKind::Whitespace, "\n"),
            tok(SyntaxKind::Ident, "fn f() {}"),
        ],
    );
    let mut ed = AstEditor::new(Category::ImplItem, item);
    ed.strip_attrs_and_docs();
    assert_eq!(text_of(ed.ast()), "fn f() {}");
}

#[test]
fn comment_stripping() {
    let item = node(
        SyntaxKind::FnDef,
        vec![
            tok(SyntaxKind::Comment, "// note"),
            tok(SyntaxKind::Whitespace, "\n"),
            tok(SyntaxKind::Ident, "fn f() {}"),
        ],
    );
    let mut ed = AstEditor::new(Category::ImplItem, item);
    ed.strip_attrs_and_docs();
    assert_eq!(text_of(ed.ast()), "fn f() {}");
}

#[test]
fn bound_removal() {
    let param = node(
        SyntaxKind::TypeParam,
        vec![
            tok(SyntaxKind::Ident, "T"),
            tok(SyntaxKind::Colon, ":"),
            tok(SyntaxKind::Whitespace, " "),
            node(SyntaxKind::TypeBoundList, vec![tok(SyntaxKind::Ident, "Clone + Debug")]),
        ],
    );
    let mut ed = AstEditor::new(Category::TypeParam, param);
    ed.remove_bounds();
    assert_eq!(text_of(ed.ast()), "T");
}

#[test]
fn bound_removal_without_colon_is_a_no_op() {
    let param = node(SyntaxKind::TypeParam, vec![tok(SyntaxKind::Ident, "T")]);
    let mut ed = AstEditor::new(Category::TypeParam, param);
    ed.remove_bounds();
    assert_eq!(text_of(ed.ast()), "T");
}

#[test]
fn insert_first_into_populated_list() {
    let mut ed = AstEditor::new(Category::RecordFieldList, single_line_list());
    ed.insert_field(InsertPosition::First, &field("z: u8"));
    assert_eq!(text_of(ed.ast()), "{ z: u8, a: i32 }");
}

#[test]
fn l_curly_finds_the_opening_brace() {
    let ed = AstEditor::new(Category::RecordFieldList, single_line_list());
    assert_eq!(ed.l_curly(), Some(0));
    let bare = Element::new_node(SyntaxKind::TypeParam, vec![tok(SyntaxKind::Ident, "T")]);
    let ed2 = AstEditor::new(Category::TypeParam, bare);
    assert_eq!(ed2.l_curly(), None);
}

#[test]
fn zero_edits_yield_empty_patch() {
    let ed = AstEditor::new(Category::RecordFieldList, single_line_list());
    let patch = ed.into_text_edit();
    assert!(patch.is_empty());
}

#[test]
fn patch_round_trips_baseline_to_current() {
    let mut ed = AstEditor::new(Category::RecordFieldList, multi_line_list());
    let baseline_text = render_bytes(ed.ast());
    ed.append_field(&field("b: i32"));
    ed.append_field(&field("c: i32"));
    let current_text = render_bytes(ed.ast());
    let patch = ed.into_text_edit();
    assert!(!patch.is_empty());
    assert_eq!(apply_patch(&baseline_text, &patch), current_text);
}

#[test]
fn patch_entries_are_sorted_and_disjoint() {
    let mut ed = AstEditor::new(Category::RecordFieldList, multi_line_list());
    let baseline_len = render_bytes(ed.ast()).len();
    ed.append_field(&field("b: i32"));
    let patch = ed.into_text_edit();
    let mut prev_end = 0;
    for entry in &patch {
        assert!(prev_end <= entry.start);
        assert!(entry.start <= entry.end);
        assert!(entry.end <= baseline_len);
        prev_end = entry.end;
    }
}

#[test]
fn insert_children_shares_untouched_children() {
    let list = single_line_list();
    let ins = vec![tok(SyntaxKind::Whitespace, " ")];
    let out = insert_children(&list, InsertPosition::After(2), &ins).unwrap();
    // Children before and after the insertion point are the same
    // allocations, not copies.
    assert!(list.child(0).same_ref(out.child(0)));
    assert!(list.child(2).same_ref(out.child(2)));
    assert!(list.child(3).same_ref(out.child(4)));
    assert!(list.child(4).same_ref(out.child(5)));
    assert_eq!(text_of(&out), "{ a: i32  }");
}

#[test]
fn insert_children_rejects_stale_anchor() {
    let list = single_line_list();
    let ins = vec![tok(SyntaxKind::Whitespace, " ")];
    let r = insert_children(&list, InsertPosition::After(17), &ins);
    assert!(matches!(r, Err(EditError::InvalidAnchor)));
}

#[test]
fn replace_children_rejects_out_of_order_range() {
    let list = single_line_list();
    let ins: Vec<Element> = vec![];
    let r = replace_children(&list, 3, 1, &ins);
    assert!(matches!(r, Err(EditError::InvalidRange)));
}

#[test]
fn replace_children_splices_run() {
    let list = single_line_list();
    let ins = vec![field("x: u8")];
    let out = replace_children(&list, 1, 3, &ins).unwrap();
    assert_eq!(text_of(&out), "{x: u8}");
    assert!(list.child(0).same_ref(out.child(0)));
    assert!(list.child(4).same_ref(out.child(2)));
}

#[test]
fn replace_descendants_rewrites_identical_subtrees() {
    // The key is the field element obtained from the tree itself, so it is
    // the same allocation as the subtree it names.
    let mut ed = AstEditor::new(Category::RecordFieldList, single_line_list());
    let key = ed.ast().child(2).duplicate();
    let subs = vec![(key, field("a: u64"))];
    assert!(ed.replace_descendants(&subs).is_ok());
    assert_eq!(text_of(ed.ast()), "{ a: u64 }");
}

#[test]
fn replace_descendants_ignores_equal_but_distinct_keys() {
    // A freshly built key renders like the tree's field but is another
    // allocation: matching is by identity, never by value, so nothing is
    // replaced.
    let mut ed = AstEditor::new(Category::RecordFieldList, single_line_list());
    let subs = vec![(field("a: i32"), field("a: u64"))];
    assert!(ed.replace_descendants(&subs).is_ok());
    assert_eq!(text_of(ed.ast()), "{ a: i32 }");
    assert!(ed.into_text_edit().is_empty());
}

#[test]
fn replace_descendants_signals_category_violation() {
    // A substitution that would replace the whole field list by a bare
    // token is a defect in the calling code: it is refused with
    // `InvalidStructure` and the session keeps its current version.
    let mut ed = AstEditor::new(Category::RecordFieldList, single_line_list());
    let key = ed.ast().duplicate();
    let subs = vec![(key, tok(SyntaxKind::Ident, "gone"))];
    assert!(matches!(ed.replace_descendants(&subs), Err(EditError::InvalidStructure)));
    assert_eq!(text_of(ed.ast()), "{ a: i32 }");
}

#[test]
fn cast_checks_category() {
    assert!(cast(Category::RecordFieldList, single_line_list()).is_ok());
    assert!(matches!(
        cast(Category::ItemList, single_line_list()),
        Err(EditError::InvalidStructure)
    ));
    assert!(matches!(
        cast(Category::RecordFieldList, tok(SyntaxKind::Ident, "x")),
        Err(EditError::InvalidStructure)
    ));
}

#[test]
fn with_body_replaces_existing_body() {
    let f = node(
        SyntaxKind::FnDef,
        vec![
            tok(SyntaxKind::Ident, "fn f()"),
            tok(SyntaxKind::Whitespace, " "),
            node(SyntaxKind::Block, vec![tok(SyntaxKind::Ident, "{ 1 }")]),
        ],
    );
    let body = node(SyntaxKind::Block, vec![tok(SyntaxKind::Ident, "{ 2 }")]);
    let out = with_body(&f, body);
    assert_eq!(text_of(&out), "fn f() { 2 }");
    assert_eq!(text_of(&f), "fn f() { 1 }");
}

#[test]
fn with_body_replaces_semicolon() {
    let f = node(
        SyntaxKind::FnDef,
        vec![tok(SyntaxKind::Ident, "fn f()"), tok(SyntaxKind::Semicolon, ";")],
    );
    let body = node(SyntaxKind::Block, vec![tok(SyntaxKind::Ident, "{ 2 }")]);
    let out = with_body(&f, body);
    assert_eq!(text_of(&out), "fn f() { 2 }");
}

#[test]
fn with_body_appends_when_nothing_to_replace() {
    let f = node(SyntaxKind::FnDef, vec![tok(SyntaxKind::Ident, "fn f()")]);
    let body = node(SyntaxKind::Block, vec![tok(SyntaxKind::Ident, "{ 2 }")]);
    let out = with_body(&f, body);
    assert_eq!(text_of(&out), "fn f() { 2 }");
}

#[test]
fn make_multiline_keeps_already_multiline_container() {
    let list = node(
        SyntaxKind::ItemList,
        vec![
            tok(SyntaxKind::LCurly, "{"),
            tok(SyntaxKind::Whitespace, "\n"),
            tok(SyntaxKind::RCurly, "}"),
        ],
    );
    let mut ed = AstEditor::new(Category::ItemList, list);
    ed.do_make_multiline();
    assert_eq!(text_of(ed.ast()), "{\n}");
}

#[test]
fn make_multiline_replaces_single_line_gap() {
    let list = node(
        SyntaxKind::ItemList,
        vec![
            tok(SyntaxKind::LCurly, "{"),
            tok(SyntaxKind::Whitespace, " "),
            tok(SyntaxKind::RCurly, "}"),
        ],
    );
    let mut ed = AstEditor::new(Category::ItemList, list);
    ed.do_make_multiline();
    assert_eq!(text_of(ed.ast()), "{\n}");
}

#[test]
fn diff_localizes_small_edits() {
    // An edit deep in the tree patches only the edited span, not the whole
    // text: the aligned, untouched children contribute nothing.
    let mut ed = AstEditor::new(Category::RecordFieldList, single_line_list());
    let baseline_text = render_bytes(ed.ast());
    let key = ed.ast().child(2).duplicate();
    let subs = vec![(key, field("a: u64"))];
    assert!(ed.replace_descendants(&subs).is_ok());
    let patch = ed.into_text_edit();
    assert!(!patch.is_empty());
    let replaced: usize = patch.iter().map(|p| p.end - p.start).sum();
    assert!(replaced < baseline_text.len());
    assert_eq!(apply_patch(&baseline_text, &patch), b"{ a: u64 }".to_vec());
}

#[test]
fn apply_patch_on_empty_patch_is_identity() {
    let text = b"struct S;".to_vec();
    let patch = vec![];
    assert_eq!(apply_patch(&text, &patch), text);
}

use plcourse::widget::try_from_binary;
use plcourse::widget::from_binary;
use plcourse::widget::Alignment;
use plcourse::widget::AnyWidget;
use plcourse::widget::ComboBox;
use plcourse::widget::Layout;
use plcourse::widget::LineEdit;
use plcourse::widget::Widget;
use plcourse::widget::Window;

fn example_app() -> Window {
    let mut app = Window::new("Example title".to_string());
    let mut v_layout = Layout::new(Alignment::Vertical);
    let h_layout = Layout::new(Alignment::Horizontal);
    let mut edit = LineEdit::new(20);
    let combo_box = ComboBox::new(Vec::from(["a".to_string(), "b".to_string()]));
    edit.add_child(AnyWidget::ComboBox(combo_box));
    v_layout.add_child(AnyWidget::LineEdit(edit));
    app.add_child(AnyWidget::Layout(v_layout));
    app.add_child(AnyWidget::Layout(h_layout));
    app
}

const EXAMPLE: &str = r#"{"name":"Window","title":"Example title","children":[{"name":"Layout","alignment":2,"children":[{"name":"LineEdit","max_length":20,"children":[{"name":"ComboBox","items":["a", "b"],"children":[]}]}]},{"name":"Layout","alignment":1,"children":[]}]}"#;

#[test]
fn encoding_of_example_tree() {
    assert_eq!(example_app().to_binary(), EXAMPLE);
}

#[test]
fn example_tree_round_trips() {
    let app = example_app();
    let text = app.to_binary();
    assert_eq!(from_binary(&text).to_binary(), text);
}

#[test]
fn sibling_subtrees_with_children_are_regrouped() {
    // The greedy children pattern of the first sibling reaches to the end of the last
    // sibling that has children, so the second layout is not read as a tree of its own.
    let mut root = Window::new("root".to_string());
    let mut a = Layout::new(Alignment::Horizontal);
    a.add_child(AnyWidget::LineEdit(LineEdit::new(1)));
    let mut b = Layout::new(Alignment::Vertical);
    b.add_child(AnyWidget::LineEdit(LineEdit::new(255)));
    root.add_child(AnyWidget::Layout(a));
    root.add_child(AnyWidget::Layout(b));
    let text = root.to_binary();
    let back = from_binary(&text);
    assert_eq!(
        back.to_binary(),
        r#"{"name":"Window","title":"root","children":[{"name":"Layout","alignment":1,"children":[{"name":"LineEdit","max_length":1,"children":[]},{"name":"LineEdit","max_length":255,"children":[]}]}]}"#
    );
}

#[test]
fn one_sibling_with_children_round_trips() {
    let mut root = Window::new("root".to_string());
    let mut a = Layout::new(Alignment::Horizontal);
    a.add_child(AnyWidget::LineEdit(LineEdit::new(1)));
    root.add_child(AnyWidget::LineEdit(LineEdit::new(7)));
    root.add_child(AnyWidget::Layout(a));
    root.add_child(AnyWidget::LineEdit(LineEdit::new(9)));
    let text = root.to_binary();
    assert_eq!(from_binary(&text).to_binary(), text);
}

#[test]
fn leftmost_tree_that_does_not_decode_is_refused() {
    let text = format!("{} {}", r#"{"name":"Button","label":"x","children":[]}"#, Layout::new(Alignment::Vertical).to_binary());
    assert!(try_from_binary(&text).is_none());
}

#[test]
fn item_list_with_line_break_is_refused() {
    assert!(try_from_binary(&"{\"name\":\"ComboBox\",\"items\":[\"a\",\n\"b\"],\"children\":[]}".to_string()).is_none());
}

#[test]
fn title_is_written_in_debug_form() {
    let w = Window::new("say \"hi\"".to_string());
    assert_eq!(w.to_binary(), r#"{"name":"Window","title":"say \"hi\"","children":[]}"#);
}

#[test]
fn items_lose_spaces_and_quotes() {
    let w = try_from_binary(&r#"{"name":"ComboBox","items":["a b", "c"],"children":[]}"#.to_string()).unwrap();
    match w {
        AnyWidget::ComboBox(c) => assert_eq!(c.items, vec!["ab".to_string(), "c".to_string()]),
        _ => panic!("not a combo box"),
    }
}

#[test]
fn empty_item_list_reads_as_one_empty_item() {
    let text = ComboBox::new(Vec::new()).to_binary();
    assert_eq!(text, r#"{"name":"ComboBox","items":[],"children":[]}"#);
    match from_binary(&text) {
        AnyWidget::ComboBox(c) => assert_eq!(c.items, vec!["".to_string()]),
        _ => panic!("not a combo box"),
    }
}

#[test]
fn unknown_kind_is_refused() {
    assert!(try_from_binary(&r#"{"name":"Button","label":"x","children":[]}"#.to_string()).is_none());
}

#[test]
fn bad_alignment_is_refused() {
    assert!(try_from_binary(&r#"{"name":"Layout","alignment":3,"children":[]}"#.to_string()).is_none());
}

#[test]
fn max_length_above_a_byte_is_refused() {
    assert!(try_from_binary(&r#"{"name":"LineEdit","max_length":256,"children":[]}"#.to_string()).is_none());
}

#[test]
fn empty_title_is_refused() {
    assert!(try_from_binary(&r#"{"name":"Window","title":"","children":[]}"#.to_string()).is_none());
}

#[test]
fn tree_after_leading_text_is_found() {
    let text = format!("junk {{ {}", Layout::new(Alignment::Vertical).to_binary());
    match try_from_binary(&text) {
        Some(AnyWidget::Layout(l)) => assert!(matches!(l.alignment, Alignment::Vertical)),
        _ => panic!("not a layout"),
    }
}

#[test]
fn text_without_a_tree_is_refused() {
    assert!(try_from_binary(&"no tree here".to_string()).is_none());
    assert!(try_from_binary(&String::new()).is_none());
}

#[test]
fn cyrillic_title_round_trips() {
    let w = Window::new("Привет мир".to_string());
    let text = w.to_binary();
    assert_eq!(text, r#"{"name":"Window","title":"Привет мир","children":[]}"#);
    match from_binary(&text) {
        AnyWidget::Window(x) => assert_eq!(x.title, "Привет мир".to_string()),
        _ => panic!("not a window"),
    }
}

#[test]
fn items_with_brackets_are_read() {
    let w = try_from_binary(&r#"{"name":"ComboBox","items":["a[1]", "b"],"children":[]}"#.to_string()).unwrap();
    match w {
        AnyWidget::ComboBox(c) => assert_eq!(c.items, vec!["a[1]".to_string(), "b".to_string()]),
        _ => panic!("not a combo box"),
    }
}

#[test]
fn title_with_punctuation_is_refused() {
    assert!(try_from_binary(&r#"{"name":"Window","title":"a.b","children":[]}"#.to_string()).is_none());
}

use cmdui::PageLayout;
use cmdui::PagerAction;
use cmdui::PagerKey;
use cmdui::render_page;

fn strs(v: &[&str]) -> Vec<String> {
    v.iter().map(|s| s.to_string()).collect()
}

fn paged_layout() -> PageLayout {
    // 80x5 terminal, 100 items of width 10: 6 columns, 17 rows, 4 visible
    PageLayout::new(80, 5, 100, 10)
}

#[test]
fn layout_on_default_terminal() {
    let l = PageLayout::new(80, 25, 100, 10);
    assert_eq!(l.cols, 6);
    assert_eq!(l.cwidth, 12);
    assert_eq!(l.end_row, 17);
    assert_eq!(l.page_size, 24);
    assert!(!l.is_paged);
}

#[test]
fn layout_pages_when_rows_exceed_screen() {
    let l = paged_layout();
    assert_eq!(l.cols, 6);
    assert_eq!(l.end_row, 17);
    assert_eq!(l.page_size, 4);
    assert!(l.is_paged);
}

#[test]
fn unpaged_span_covers_everything_in_one_pass() {
    let l = PageLayout::new(80, 25, 100, 10);
    assert!(!l.is_paged);
    let (start, end) = l.span(0, 100);
    assert_eq!(start, 0);
    assert_eq!(end, 100);
}

#[test]
fn paged_span_shows_one_screenful() {
    let l = paged_layout();
    let (start, end) = l.span(0, 100);
    assert_eq!(start, 0);
    assert_eq!(end, 24);
    let (start, end) = l.span(13, 100);
    assert_eq!(start, 78);
    assert_eq!(end, 100);
}

#[test]
fn render_pads_all_but_each_rows_last_column() {
    let lines = strs(&["a", "b", "c"]);
    let text = render_page(&lines, 0, 3, 2, 4);
    assert_eq!(text, "a   b\nc   \n");
}

#[test]
fn render_complete_rows_end_without_extra_break() {
    let lines = strs(&["aa", "bb", "cc", "dd"]);
    let text = render_page(&lines, 0, 4, 2, 4);
    assert_eq!(text, "aa  bb\ncc  dd\n");
}

#[test]
fn render_single_column_is_one_item_per_row() {
    let lines = strs(&["aa", "bb"]);
    let text = render_page(&lines, 0, 2, 1, 4);
    assert_eq!(text, "aa\nbb\n");
}

#[test]
fn home_jumps_to_first_row() {
    let l = paged_layout();
    assert!(l.navigate(5, PagerKey::Home) == PagerAction::Scroll(0));
    assert!(l.navigate(0, PagerKey::Home) == PagerAction::Ignore);
}

#[test]
fn end_jumps_to_last_full_screen() {
    let l = paged_layout();
    assert!(l.navigate(0, PagerKey::End) == PagerAction::Scroll(13));
    assert!(l.navigate(13, PagerKey::End) == PagerAction::Ignore);
}

#[test]
fn page_keys_scroll_by_screenfuls_with_clamping() {
    let l = paged_layout();
    assert!(l.navigate(10, PagerKey::PageUp) == PagerAction::Scroll(6));
    assert!(l.navigate(3, PagerKey::Char('b')) == PagerAction::Scroll(0));
    assert!(l.navigate(0, PagerKey::PageUp) == PagerAction::Ignore);
    assert!(l.navigate(0, PagerKey::Char(' ')) == PagerAction::Scroll(4));
    assert!(l.navigate(10, PagerKey::PageDown) == PagerAction::Scroll(13));
    assert!(l.navigate(13, PagerKey::Char(' ')) == PagerAction::Ignore);
}

#[test]
fn row_keys_scroll_by_single_rows() {
    let l = paged_layout();
    assert!(l.navigate(3, PagerKey::ArrowUp) == PagerAction::Scroll(2));
    assert!(l.navigate(0, PagerKey::ArrowUp) == PagerAction::Ignore);
    assert!(l.navigate(12, PagerKey::Enter) == PagerAction::Scroll(13));
    assert!(l.navigate(13, PagerKey::ArrowDown) == PagerAction::Ignore);
}

#[test]
fn abort_keys_halt_pagination_immediately() {
    let l = paged_layout();
    assert!(l.navigate(0, PagerKey::Char('q')) == PagerAction::Abort);
    assert!(l.navigate(7, PagerKey::Escape) == PagerAction::Abort);
    assert!(l.navigate(13, PagerKey::Interrupt) == PagerAction::Abort);
}

#[test]
fn unknown_keys_are_ignored() {
    let l = paged_layout();
    assert!(l.navigate(5, PagerKey::Char('x')) == PagerAction::Ignore);
    assert!(l.navigate(5, PagerKey::Other) == PagerAction::Ignore);
}

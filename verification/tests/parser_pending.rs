#![allow(unused_imports)]
use wenv::model::entry::{Entry, EntryType, ParseResult, ParseWarning};
use wenv::model::shell::ShellType;
use wenv::parser::pending::{BoundaryType, MergeType, PendingBlock};

#[test]
fn test_pending_block_complete() {
    let block = PendingBlock::new(1, "alias x='y'", BoundaryType::Complete);
    assert!(block.is_complete());
}

#[test]
fn test_pending_block_brace_counting() {
    let mut block = PendingBlock::function("test".to_string(), 1, "test() {", 1);
    assert!(!block.is_complete());

    block.update_brace_count(0, 1);
    assert!(block.is_complete());
}

#[test]
fn test_pending_block_quote_counting() {
    let mut block =
        PendingBlock::multiline_alias("test".to_string(), 1, "alias test='line1", 1);
    assert!(!block.is_complete());

    block.add_quotes(1); // closing quote
    assert!(block.is_complete());
}

#[test]
fn test_pending_block_keyword_tracking() {
    let mut block = PendingBlock::control(1, "if [ -f file ]; then", 1);
    assert!(!block.is_complete());

    block.update_keyword_depth(0, 1); // fi encountered
    assert!(block.is_complete());
}

#[test]
fn test_pending_block_adjacent_merging() {
    let block = PendingBlock::comment(1, "# header");
    assert!(!block.is_complete()); // never complete by itself
    assert!(block.can_absorb_blank());
    assert!(block.can_absorb_comment());
}

#[test]
fn test_pending_block_raw_content() {
    let mut block = PendingBlock::new(1, "line1", BoundaryType::Complete);
    block.add_line("line2", 2);
    block.add_line("line3", 3);

    assert_eq!(block.raw_content(), "line1\nline2\nline3");
    assert_eq!(block.start_line, 1);
    assert_eq!(block.end_line, 3);
}

#[test]
fn test_upgrade_to_code() {
    let mut block = PendingBlock::comment(1, "# header");
    assert_eq!(block.entry_hint, Some(EntryType::Comment));

    block.upgrade_to_code();
    assert_eq!(block.entry_hint, Some(EntryType::Code));
    assert_eq!(block.merge_type(), Some(MergeType::CodeWithBlanks));
}

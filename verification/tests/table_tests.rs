//! Tests for the operator table and the source-character helper.

use lynx_lexer::lexer::source_chars;
use lynx_lexer::sym_table::OpTable;

#[test]
fn op_table_contains_its_spellings() {
    let ops = vec!["->".to_string(), "+".to_string(), "::".to_string()];
    let table = OpTable::new(ops);
    assert!(table.contains("->"));
    assert!(table.contains("+"));
    assert!(table.contains("::"));
    assert!(!table.contains("-"));
    assert!(!table.contains(""));
}

#[test]
fn empty_op_table_contains_nothing() {
    let table = OpTable::new(vec![]);
    assert!(!table.contains("+"));
}

#[test]
fn source_chars_splits_unicode() {
    let v = source_chars("hé\n");
    assert_eq!(v, vec!['h', 'é', '\n']);
    assert_eq!(source_chars(""), Vec::<char>::new());
}

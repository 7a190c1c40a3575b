use soroban_debugger::debugger::breakpoint::{find_operator, BreakpointManager};
use soroban_debugger::error::DebuggerError;
use soroban_debugger::text::{is_whitespace, same_text, to_chars, trim_range};

#[test]
fn test_add_breakpoint() {
    let mut manager = BreakpointManager::new();
    manager.add("transfer");
    assert!(manager.should_break("transfer"));
    assert!(!manager.should_break("mint"));
}

#[test]
fn test_remove_breakpoint() {
    let mut manager = BreakpointManager::new();
    manager.add("transfer");
    assert!(manager.remove("transfer"));
    assert!(!manager.should_break("transfer"));
}

#[test]
fn test_list_breakpoints() {
    let mut manager = BreakpointManager::new();
    manager.add("transfer");
    manager.add("mint");
    let list = manager.list();
    assert_eq!(list.len(), 2);
    assert!(list.contains(&"transfer".to_string()));
    assert!(list.contains(&"mint".to_string()));
}

#[test]
fn test_parse_condition_missing_operator_fails() {
    let result = BreakpointManager::parse_condition("balance 1000");
    assert!(result.is_err());
    assert!(result
        .unwrap_err()
        .to_string()
        .contains("comparison operator"));
}

#[test]
fn test_parse_condition_missing_lhs_fails() {
    let result = BreakpointManager::parse_condition("> 1000");
    assert!(result.is_err());
    assert!(result
        .unwrap_err()
        .to_string()
        .contains("left and right operands"));
}

#[test]
fn test_parse_condition_missing_rhs_fails() {
    let result = BreakpointManager::parse_condition("balance > ");
    assert!(result.is_err());
    assert!(result
        .unwrap_err()
        .to_string()
        .contains("left and right operands"));
}

#[test]
fn test_parse_condition_valid_structure_still_not_implemented() {
    let result = BreakpointManager::parse_condition("balance > 1000");
    assert!(result.is_err());
    assert!(result
        .unwrap_err()
        .to_string()
        .contains("not yet implemented"));
}

#[test]
fn new_manager_is_empty() {
    let manager = BreakpointManager::new();
    assert!(manager.is_empty());
    assert_eq!(manager.count(), 0);
    assert!(manager.list().is_empty());
    let manager = BreakpointManager::default();
    assert!(manager.is_empty());
}

#[test]
fn adding_twice_keeps_one_breakpoint() {
    let mut manager = BreakpointManager::new();
    manager.add("transfer");
    manager.add("transfer");
    assert_eq!(manager.count(), 1);
    assert_eq!(manager.list(), vec!["transfer".to_string()]);
    assert!(!manager.is_empty());
}

#[test]
fn add_then_remove_restores_the_set() {
    let mut manager = BreakpointManager::new();
    manager.add("mint");
    manager.add("burn");
    assert!(manager.remove("burn"));
    assert_eq!(manager.count(), 1);
    assert!(manager.should_break("mint"));
    assert!(!manager.should_break("burn"));
}

#[test]
fn removing_an_unset_breakpoint_reports_false() {
    let mut manager = BreakpointManager::new();
    manager.add("mint");
    assert!(!manager.remove("transfer"));
    assert_eq!(manager.count(), 1);
    assert!(manager.should_break("mint"));
}

#[test]
fn removing_twice_reports_false_the_second_time() {
    let mut manager = BreakpointManager::new();
    manager.add("mint");
    assert!(manager.remove("mint"));
    assert!(!manager.remove("mint"));
    assert!(manager.is_empty());
}

#[test]
fn clear_removes_every_breakpoint() {
    let mut manager = BreakpointManager::new();
    manager.add("a");
    manager.add("b");
    manager.add("c");
    assert_eq!(manager.count(), 3);
    manager.clear();
    assert!(manager.is_empty());
    assert_eq!(manager.count(), 0);
    assert!(!manager.should_break("a"));
}

#[test]
fn names_are_matched_exactly() {
    let mut manager = BreakpointManager::new();
    manager.add("transfer");
    assert!(!manager.should_break("Transfer"));
    assert!(!manager.should_break("transfer "));
    assert!(!manager.should_break("transf"));
    manager.add("überweisen");
    assert!(manager.should_break("überweisen"));
    assert!(!manager.should_break("uberweisen"));
}

#[test]
fn empty_name_is_a_name() {
    let mut manager = BreakpointManager::new();
    manager.add("");
    assert!(manager.should_break(""));
    assert_eq!(manager.count(), 1);
}

#[test]
fn list_holds_each_name_once() {
    let mut manager = BreakpointManager::new();
    for name in ["a", "b", "a", "c", "b"] {
        manager.add(name);
    }
    let mut list = manager.list();
    list.sort();
    assert_eq!(list, vec!["a".to_string(), "b".to_string(), "c".to_string()]);
    assert_eq!(manager.count(), 3);
}

fn rejection(s: &str) -> String {
    match BreakpointManager::parse_condition(s) {
        Ok(()) => panic!("a condition was accepted"),
        Err(e) => e.to_string(),
    }
}

#[test]
fn every_operator_is_recognised() {
    for cond in ["a >= 1", "a <= 1", "a == 1", "a != 1", "a > 1", "a < 1", "a<1"] {
        assert_eq!(
            rejection(cond),
            "Conditional breakpoints are not yet implemented"
        );
    }
}

#[test]
fn condition_error_messages() {
    assert_eq!(
        rejection("balance 1000"),
        "Condition must contain a comparison operator"
    );
    assert_eq!(rejection(""), "Condition must contain a comparison operator");
    assert_eq!(rejection("a = b"), "Condition must contain a comparison operator");
    assert_eq!(rejection("a ! b"), "Condition must contain a comparison operator");
    assert_eq!(
        rejection(">="),
        "Condition must include non-empty left and right operands"
    );
    assert_eq!(
        rejection("  balance   "),
        "Condition must contain a comparison operator"
    );
    assert_eq!(
        rejection("balance ==   "),
        "Condition must include non-empty left and right operands"
    );
}

#[test]
fn surrounding_whitespace_is_ignored() {
    assert_eq!(
        rejection("  balance > 1000 \n"),
        "Conditional breakpoints are not yet implemented"
    );
    assert_eq!(
        rejection("\u{3000}x < y\u{a0}"),
        "Conditional breakpoints are not yet implemented"
    );
    assert_eq!(
        rejection("\t> 1000"),
        "Condition must include non-empty left and right operands"
    );
}

#[test]
fn first_operator_of_the_table_wins() {
    // ">=" is searched before ">", so "a > b >= c" splits at ">=": both sides non-empty.
    assert_eq!(find_operator("a > b >= c"), Some((">=", 6)));
    // "=>" holds no "=="; ">" is found, leaving "a =" and "b".
    assert_eq!(find_operator("a => b"), Some((">", 3)));
    assert_eq!(
        rejection("a => b"),
        "Conditional breakpoints are not yet implemented"
    );
    // ">" before "<": in "< x >" the split is at ">", whose right side is empty.
    assert_eq!(find_operator("< x >"), Some((">", 4)));
    assert_eq!(
        rejection("< x >"),
        "Condition must include non-empty left and right operands"
    );
}

#[test]
fn find_operator_positions_count_bytes() {
    assert_eq!(find_operator("a >= b"), Some((">=", 2)));
    assert_eq!(find_operator("x!=y"), Some(("!=", 1)));
    assert_eq!(find_operator("é > 1"), Some((">", 3)));
    assert_eq!(find_operator("日本 <= 語"), Some(("<=", 7)));
    assert_eq!(find_operator("nothing here"), None);
    assert_eq!(find_operator(""), None);
}

#[test]
fn debugger_error_text_is_its_message() {
    let e = DebuggerError::BreakpointError("boom".to_string());
    assert_eq!(e.to_string(), "boom");
}

#[test]
fn whitespace_follows_the_unicode_property() {
    for c in [' ', '\t', '\n', '\u{b}', '\u{c}', '\r', '\u{85}', '\u{a0}', '\u{1680}', '\u{2000}', '\u{200a}', '\u{2028}', '\u{2029}', '\u{202f}', '\u{205f}', '\u{3000}'] {
        assert!(is_whitespace(c), "{:?}", c);
        assert_eq!(is_whitespace(c), c.is_whitespace());
    }
    for c in ['a', '0', '\u{200b}', '\u{feff}', '\u{1f}', '_'] {
        assert!(!is_whitespace(c), "{:?}", c);
        assert_eq!(is_whitespace(c), c.is_whitespace());
    }
}

#[test]
fn trim_range_matches_str_trim() {
    for s in ["", "   ", "  ab c ", "x", "\u{3000}y\u{3000}", " \t\n"] {
        let chars = to_chars(s);
        let (a, b) = trim_range(&chars, 0, chars.len());
        let trimmed: String = chars[a..b].iter().collect();
        assert_eq!(trimmed, s.trim());
    }
}

#[test]
fn same_text_compares_characters() {
    assert!(same_text("abc", "abc"));
    assert!(!same_text("abc", "abd"));
    assert!(!same_text("abc", "ab"));
    assert!(same_text("", ""));
    assert!(same_text("ünï", "ünï"));
}

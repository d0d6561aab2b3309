use cfgrammar::ast::GrammarAST;
use cfgrammar::ast::GrammarValidationError;
use cfgrammar::ast::GrammarValidationErrorKind;
use cfgrammar::ast::Symbol;
use cfgrammar::AssocKind;
use cfgrammar::Precedence;
use cfgrammar::YaccGrammarError;

fn nonterminal(n: &str) -> Symbol {
    Symbol::Nonterm(n.to_string())
}

fn terminal(n: &str) -> Symbol {
    Symbol::Term(n.to_string())
}

#[test]
fn test_empty_grammar() {
    let mut grm = GrammarAST::new();
    match grm.complete_and_validate() {
        Err(GrammarValidationError { kind: GrammarValidationErrorKind::NoStartRule, .. }) => (),
        _ => panic!("Validation error"),
    }
}

#[test]
fn test_invalid_start_rule() {
    let mut grm = GrammarAST::new();
    grm.start = Some("A".to_string());
    grm.add_prod("B".to_string(), vec![], None);
    match grm.complete_and_validate() {
        Err(GrammarValidationError { kind: GrammarValidationErrorKind::InvalidStartRule, .. }) => {
            ()
        },
        _ => panic!("Validation error"),
    }
}

#[test]
fn test_valid_start_rule() {
    let mut grm = GrammarAST::new();
    grm.start = Some("A".to_string());
    grm.add_prod("A".to_string(), vec![], None);
    assert!(grm.complete_and_validate().is_ok());
}

#[test]
fn test_valid_nonterminal_ref() {
    let mut grm = GrammarAST::new();
    grm.start = Some("A".to_string());
    grm.add_prod("A".to_string(), vec![nonterminal("B")], None);
    grm.add_prod("B".to_string(), vec![], None);
    assert!(grm.complete_and_validate().is_ok());
}

#[test]
fn test_invalid_nonterminal_ref() {
    let mut grm = GrammarAST::new();
    grm.start = Some("A".to_string());
    grm.add_prod("A".to_string(), vec![nonterminal("B")], None);
    match grm.complete_and_validate() {
        Err(GrammarValidationError { kind: GrammarValidationErrorKind::UnknownRuleRef, .. }) => (),
        _ => panic!("Validation error"),
    }
}

#[test]
fn test_valid_terminal_ref() {
    let mut grm = GrammarAST::new();
    grm.tokens.insert("b".to_string());
    grm.start = Some("A".to_string());
    grm.add_prod("A".to_string(), vec![terminal("b")], None);
    assert!(grm.complete_and_validate().is_ok());
}

#[test]
#[should_panic]
fn test_valid_token_ref() {
    // The Yacc feature that lets nonterminals be redefined as tokens by
    // adding them to `%token` is not supported.
    let mut grm = GrammarAST::new();
    grm.tokens.insert("b".to_string());
    grm.start = Some("A".to_string());
    grm.add_prod("A".to_string(), vec![nonterminal("b")], None);
    assert!(grm.complete_and_validate().is_ok());
}

#[test]
fn test_invalid_terminal_ref() {
    let mut grm = GrammarAST::new();
    grm.start = Some("A".to_string());
    grm.add_prod("A".to_string(), vec![terminal("b")], None);
    match grm.complete_and_validate() {
        Err(GrammarValidationError { kind: GrammarValidationErrorKind::UnknownToken, .. }) => (),
        _ => panic!("Validation error"),
    }
}

#[test]
fn test_invalid_nonterminal_forgotten_token() {
    let mut grm = GrammarAST::new();
    grm.start = Some("A".to_string());
    grm.add_prod("A".to_string(), vec![nonterminal("b"), terminal("b")], None);
    match grm.complete_and_validate() {
        Err(GrammarValidationError { kind: GrammarValidationErrorKind::UnknownRuleRef, .. }) => (),
        _ => panic!("Validation error"),
    }
}

#[test]
fn test_precedence_override() {
    let mut grm = GrammarAST::new();
    grm.precs.insert("b".to_string(), Precedence { level: 1, kind: AssocKind::Left });
    grm.start = Some("A".to_string());
    grm.tokens.insert("b".to_string());
    grm.add_prod("A".to_string(), vec![terminal("b")], Some("b".to_string()));
    assert!(grm.complete_and_validate().is_ok());
}

#[test]
fn test_invalid_precedence_override() {
    let mut grm = GrammarAST::new();
    grm.start = Some("A".to_string());
    grm.add_prod("A".to_string(), vec![terminal("b")], Some("b".to_string()));
    match grm.complete_and_validate() {
        Err(GrammarValidationError { kind: GrammarValidationErrorKind::UnknownToken, .. }) => (),
        _ => panic!("Validation error"),
    }
    grm.tokens.insert("b".to_string());
    match grm.complete_and_validate() {
        Err(GrammarValidationError { kind: GrammarValidationErrorKind::NoPrecForToken, .. }) => (),
        _ => panic!("Validation error"),
    }
}

#[test]
fn test_get_rule_and_has_token() {
    let mut grm = GrammarAST::new();
    grm.tokens.insert("b".to_string());
    grm.add_prod("A".to_string(), vec![terminal("b")], None);
    grm.add_prod("B".to_string(), vec![], None);
    grm.add_prod("A".to_string(), vec![], None);
    assert_eq!(grm.get_rule("A"), Some(&vec![0usize, 2usize]));
    assert_eq!(grm.get_rule("B"), Some(&vec![1usize]));
    assert_eq!(grm.get_rule("C"), None);
    assert!(grm.has_token("b"));
    assert!(!grm.has_token("c"));
}

#[test]
fn test_validation_error_message() {
    let mut grm = GrammarAST::new();
    grm.start = Some("A".to_string());
    grm.add_prod("A".to_string(), vec![terminal("b")], None);
    let err = grm.complete_and_validate().unwrap_err();
    assert_eq!(err.message(), "Unknown token 'b'");
}

#[test]
fn test_grammar_error_message() {
    let mut grm = GrammarAST::new();
    let err = grm.complete_and_validate().unwrap_err();
    let top = YaccGrammarError::from(err);
    assert_eq!(top.message(), "No start rule specified");
}

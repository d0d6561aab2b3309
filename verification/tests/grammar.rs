use cfgrammar::ast::GrammarAST;
use cfgrammar::ast::Symbol as AstSymbol;
use cfgrammar::AssocKind;
use cfgrammar::NTIdx;
use cfgrammar::PIdx;
use cfgrammar::Precedence;
use cfgrammar::Symbol;
use cfgrammar::TIdx;
use cfgrammar::YaccGrammar;
use cfgrammar::YaccKind;

/// Build a grammar from a small Yacc-style source text: `%start`, `%token`,
/// `%left`/`%right`/`%nonassoc`, `%implicit_tokens`, then `%%` and the
/// rules. Quoted names in rule bodies are terminals and are implicitly
/// declared as tokens.
fn yacc_grm(kind: YaccKind, src: &str) -> Result<YaccGrammar, String> {
    let mut ast = GrammarAST::new();
    let (header, body) = src.split_once("%%").expect("missing %%");

    fn unquote(w: &str) -> Option<String> {
        if w.len() >= 2 && w.starts_with('\'') && w.ends_with('\'') {
            Some(w[1..w.len() - 1].to_string())
        } else {
            None
        }
    }

    let words: Vec<&str> = header.split_whitespace().collect();
    let mut level: u64 = 0;
    let mut w = 0;
    while w < words.len() {
        match words[w] {
            "%start" => {
                ast.start = Some(words[w + 1].to_string());
                w += 2;
            },
            "%token" => {
                w += 1;
                while w < words.len() && !words[w].starts_with('%') {
                    let name = unquote(words[w]).unwrap_or_else(|| words[w].to_string());
                    ast.tokens.insert(name);
                    w += 1;
                }
            },
            "%implicit_tokens" => {
                w += 1;
                let mut implicit = cfgrammar::TokenSet::new();
                while w < words.len() && !words[w].starts_with('%') {
                    let name = unquote(words[w]).unwrap_or_else(|| words[w].to_string());
                    ast.tokens.insert(name.clone());
                    implicit.insert(name);
                    w += 1;
                }
                ast.implicit_tokens = Some(implicit);
            },
            d @ ("%left" | "%right" | "%nonassoc") => {
                let akind = match d {
                    "%left" => AssocKind::Left,
                    "%right" => AssocKind::Right,
                    _ => AssocKind::Nonassoc,
                };
                w += 1;
                while w < words.len() && !words[w].starts_with('%') {
                    let name = unquote(words[w]).expect("precedence token must be quoted");
                    ast.tokens.insert(name.clone());
                    ast.precs.insert(name, Precedence { level, kind: akind });
                    w += 1;
                }
                level += 1;
            },
            other => panic!("unknown directive {}", other),
        }
    }

    for chunk in body.split(';') {
        if chunk.trim().is_empty() {
            continue;
        }
        let (name, alts) = chunk.split_once(':').expect("missing ':' in rule");
        let name = name.trim().to_string();
        for alt in alts.split('|') {
            let mut syms: Vec<AstSymbol> = Vec::new();
            let mut prec: Option<String> = None;
            let ws: Vec<&str> = alt.split_whitespace().collect();
            let mut k = 0;
            while k < ws.len() {
                if ws[k] == "%prec" {
                    prec = Some(unquote(ws[k + 1]).unwrap_or_else(|| ws[k + 1].to_string()));
                    k += 2;
                } else if let Some(t) = unquote(ws[k]) {
                    ast.tokens.insert(t.clone());
                    syms.push(AstSymbol::Term(t));
                    k += 1;
                } else {
                    syms.push(AstSymbol::Nonterm(ws[k].to_string()));
                    k += 1;
                }
            }
            ast.add_prod(name.clone(), syms, prec);
        }
    }

    match ast.complete_and_validate() {
        Ok(()) => Ok(YaccGrammar::new(kind, &ast)),
        Err(e) => Err(e.message()),
    }
}

fn prods_rules_of(grm: &YaccGrammar) -> Vec<NTIdx> {
    let mut out = Vec::new();
    for p in 0..grm.prods_len() as usize {
        out.push(grm.prod_to_nonterm(PIdx(p)));
    }
    out
}

fn rules_prods_of(grm: &YaccGrammar) -> Vec<Vec<PIdx>> {
    let mut out = Vec::new();
    for i in grm.iter_nonterm_idxs() {
        out.push(grm.nonterm_to_prods(i).clone());
    }
    out
}

#[test]
fn test_minimal() {
    let grm = yacc_grm(YaccKind::Original, "%start R %token T %% R: 'T';").unwrap();

    assert_eq!(grm.start_prod(), PIdx(1));
    assert_eq!(grm.implicit_nonterm(), None);
    grm.nonterm_idx("^").unwrap();
    grm.nonterm_idx("R").unwrap();
    grm.term_idx("T").unwrap();

    assert_eq!(rules_prods_of(&grm), vec![vec![PIdx(1)], vec![PIdx(0)]]);
    let start_prod = grm.prod(grm.nonterm_to_prods(grm.nonterm_idx("^").unwrap())[0]);
    assert_eq!(*start_prod, vec![Symbol::Nonterm(grm.nonterm_idx("R").unwrap())]);
    let r_prod = grm.prod(grm.nonterm_to_prods(grm.nonterm_idx("R").unwrap())[0]);
    assert_eq!(*r_prod, vec![Symbol::Term(grm.term_idx("T").unwrap())]);
    assert_eq!(prods_rules_of(&grm), vec![NTIdx(1), NTIdx(0)]);

    assert_eq!(grm.terms_map(), vec![("T".to_string(), TIdx(0))]);
    assert_eq!(grm.iter_nonterm_idxs(), vec![NTIdx(0), NTIdx(1)]);
}

#[test]
fn test_rule_ref() {
    let grm = yacc_grm(YaccKind::Original, "%start R %token T %% R : S; S: 'T';").unwrap();

    grm.nonterm_idx("^").unwrap();
    grm.nonterm_idx("R").unwrap();
    grm.nonterm_idx("S").unwrap();
    grm.term_idx("T").unwrap();
    assert!(grm.term_name(grm.eof_term_idx()).is_none());

    assert_eq!(
        rules_prods_of(&grm),
        vec![vec![PIdx(2)], vec![PIdx(0)], vec![PIdx(1)]]
    );
    let start_prod = grm.prod(grm.nonterm_to_prods(grm.nonterm_idx("^").unwrap())[0]);
    assert_eq!(*start_prod, vec![Symbol::Nonterm(grm.nonterm_idx("R").unwrap())]);
    let r_prod = grm.prod(grm.nonterm_to_prods(grm.nonterm_idx("R").unwrap())[0]);
    assert_eq!(r_prod.len(), 1);
    assert_eq!(r_prod[0], Symbol::Nonterm(grm.nonterm_idx("S").unwrap()));
    let s_prod = grm.prod(grm.nonterm_to_prods(grm.nonterm_idx("S").unwrap())[0]);
    assert_eq!(s_prod.len(), 1);
    assert_eq!(s_prod[0], Symbol::Term(grm.term_idx("T").unwrap()));
}

#[test]
fn test_long_prod() {
    let grm = yacc_grm(YaccKind::Original, "%start R %token T1 T2 %% R : S 'T1' S; S: 'T2';")
        .unwrap();

    grm.nonterm_idx("^").unwrap();
    grm.nonterm_idx("R").unwrap();
    grm.nonterm_idx("S").unwrap();
    grm.term_idx("T1").unwrap();
    grm.term_idx("T2").unwrap();

    assert_eq!(
        rules_prods_of(&grm),
        vec![vec![PIdx(2)], vec![PIdx(0)], vec![PIdx(1)]]
    );
    assert_eq!(prods_rules_of(&grm), vec![NTIdx(1), NTIdx(2), NTIdx(0)]);
    let start_prod = grm.prod(grm.nonterm_to_prods(grm.nonterm_idx("^").unwrap())[0]);
    assert_eq!(*start_prod, vec![Symbol::Nonterm(grm.nonterm_idx("R").unwrap())]);
    let r_prod = grm.prod(grm.nonterm_to_prods(grm.nonterm_idx("R").unwrap())[0]);
    assert_eq!(r_prod.len(), 3);
    assert_eq!(r_prod[0], Symbol::Nonterm(grm.nonterm_idx("S").unwrap()));
    assert_eq!(r_prod[1], Symbol::Term(grm.term_idx("T1").unwrap()));
    assert_eq!(r_prod[2], Symbol::Nonterm(grm.nonterm_idx("S").unwrap()));
    let s_prod = grm.prod(grm.nonterm_to_prods(grm.nonterm_idx("S").unwrap())[0]);
    assert_eq!(s_prod.len(), 1);
    assert_eq!(s_prod[0], Symbol::Term(grm.term_idx("T2").unwrap()));
}

#[test]
fn test_prods_rules() {
    let grm = yacc_grm(
        YaccKind::Original,
        "
            %start A
            %%
            A: B
             | C;
            B: 'x';
            C: 'y'
             | 'z';
          ",
    )
    .unwrap();

    assert_eq!(
        prods_rules_of(&grm),
        vec![NTIdx(1), NTIdx(1), NTIdx(2), NTIdx(3), NTIdx(3), NTIdx(0)]
    );
}

#[test]
fn test_left_right_nonassoc_precs() {
    let grm = yacc_grm(
        YaccKind::Original,
        "
            %start Expr
            %right '='
            %left '+' '-'
            %left '/'
            %left '*'
            %nonassoc '~'
            %%
            Expr : Expr '=' Expr
                 | Expr '+' Expr
                 | Expr '-' Expr
                 | Expr '/' Expr
                 | Expr '*' Expr
                 | Expr '~' Expr
                 | 'id' ;
          ",
    )
    .unwrap();

    assert_eq!(grm.prods_len(), 8);
    assert_eq!(
        grm.prod_precedence(PIdx(0)).unwrap(),
        Precedence { level: 0, kind: AssocKind::Right }
    );
    assert_eq!(
        grm.prod_precedence(PIdx(1)).unwrap(),
        Precedence { level: 1, kind: AssocKind::Left }
    );
    assert_eq!(
        grm.prod_precedence(PIdx(2)).unwrap(),
        Precedence { level: 1, kind: AssocKind::Left }
    );
    assert_eq!(
        grm.prod_precedence(PIdx(3)).unwrap(),
        Precedence { level: 2, kind: AssocKind::Left }
    );
    assert_eq!(
        grm.prod_precedence(PIdx(4)).unwrap(),
        Precedence { level: 3, kind: AssocKind::Left }
    );
    assert_eq!(
        grm.prod_precedence(PIdx(5)).unwrap(),
        Precedence { level: 4, kind: AssocKind::Nonassoc }
    );
    assert!(grm.prod_precedence(PIdx(6)).is_none());
    assert_eq!(grm.prod_precedence(PIdx(7)), None);
}

#[test]
fn test_prec_override() {
    let grm = yacc_grm(
        YaccKind::Original,
        "
            %start expr
            %left '+' '-'
            %left '*' '/'
            %%
            expr : expr '+' expr
                 | expr '-' expr
                 | expr '*' expr
                 | expr '/' expr
                 | '-'  expr %prec '*'
                 | 'id' ;
        ",
    )
    .unwrap();
    assert_eq!(grm.prods_len(), 7);
    assert_eq!(
        grm.prod_precedence(PIdx(0)).unwrap(),
        Precedence { level: 0, kind: AssocKind::Left }
    );
    assert_eq!(
        grm.prod_precedence(PIdx(1)).unwrap(),
        Precedence { level: 0, kind: AssocKind::Left }
    );
    assert_eq!(
        grm.prod_precedence(PIdx(2)).unwrap(),
        Precedence { level: 1, kind: AssocKind::Left }
    );
    assert_eq!(
        grm.prod_precedence(PIdx(3)).unwrap(),
        Precedence { level: 1, kind: AssocKind::Left }
    );
    assert_eq!(
        grm.prod_precedence(PIdx(4)).unwrap(),
        Precedence { level: 1, kind: AssocKind::Left }
    );
    assert!(grm.prod_precedence(PIdx(5)).is_none());
    assert_eq!(grm.prod_precedence(PIdx(6)), None);
}

#[test]
fn test_right_to_left_inference() {
    // The inferred precedence of a production is that of its right-most
    // terminal, skipping trailing nonterminals.
    let grm = yacc_grm(
        YaccKind::Original,
        "
            %start A
            %left 'x'
            %%
            A: B 'x' C;
            B: 'y';
            C: B B;
        ",
    )
    .unwrap();
    assert_eq!(
        grm.prod_precedence(PIdx(0)).unwrap(),
        Precedence { level: 0, kind: AssocKind::Left }
    );
}

#[test]
fn test_implicit_tokens_rewrite() {
    let grm = yacc_grm(
        YaccKind::Eco,
        "
          %implicit_tokens ws1 ws2
          %start S
          %%
          S: 'a' | T;
          T: 'c' |;
          ",
    )
    .unwrap();

    // The grammar above is rewritten to:
    //   ^ : ^~;
    //   ^~: ~ S;
    //   ~ : ws1 ~ | ws2 ~ | ;
    //   S : 'a' ~ | T;
    //   T : 'c' ~ | ;

    assert_eq!(grm.prods_len(), 9);

    let itfs_rule_idx = grm.nonterm_idx("^~").unwrap();
    assert_eq!(grm.nonterm_to_prods(itfs_rule_idx).len(), 1);

    let itfs_prod1 = grm.prod(grm.nonterm_to_prods(itfs_rule_idx)[0]);
    assert_eq!(itfs_prod1.len(), 2);
    assert_eq!(itfs_prod1[0], Symbol::Nonterm(grm.nonterm_idx("~").unwrap()));
    assert_eq!(itfs_prod1[1], Symbol::Nonterm(grm.nonterm_idx("S").unwrap()));

    let s_rule_idx = grm.nonterm_idx("S").unwrap();
    assert_eq!(grm.nonterm_to_prods(s_rule_idx).len(), 2);

    let s_prod1 = grm.prod(grm.nonterm_to_prods(s_rule_idx)[0]);
    assert_eq!(s_prod1.len(), 2);
    assert_eq!(s_prod1[0], Symbol::Term(grm.term_idx("a").unwrap()));
    assert_eq!(s_prod1[1], Symbol::Nonterm(grm.nonterm_idx("~").unwrap()));

    let s_prod2 = grm.prod(grm.nonterm_to_prods(s_rule_idx)[1]);
    assert_eq!(s_prod2.len(), 1);
    assert_eq!(s_prod2[0], Symbol::Nonterm(grm.nonterm_idx("T").unwrap()));

    let t_rule_idx = grm.nonterm_idx("T").unwrap();
    assert_eq!(grm.nonterm_to_prods(s_rule_idx).len(), 2);

    let t_prod1 = grm.prod(grm.nonterm_to_prods(t_rule_idx)[0]);
    assert_eq!(t_prod1.len(), 2);
    assert_eq!(t_prod1[0], Symbol::Term(grm.term_idx("c").unwrap()));
    assert_eq!(t_prod1[1], Symbol::Nonterm(grm.nonterm_idx("~").unwrap()));

    let t_prod2 = grm.prod(grm.nonterm_to_prods(t_rule_idx)[1]);
    assert_eq!(t_prod2.len(), 0);

    assert_eq!(Some(grm.nonterm_idx("~").unwrap()), grm.implicit_nonterm());
    let i_rule_idx = grm.nonterm_idx("~").unwrap();
    assert_eq!(grm.nonterm_to_prods(i_rule_idx).len(), 3);
    let i_prod1 = grm.prod(grm.nonterm_to_prods(i_rule_idx)[0]);
    let i_prod2 = grm.prod(grm.nonterm_to_prods(i_rule_idx)[1]);
    assert_eq!(i_prod1.len(), 2);
    assert_eq!(i_prod2.len(), 2);
    // The order the implicit tokens appear in is part of the token set's
    // iteration order, so accept either assignment.
    let cnd1 = vec![
        Symbol::Term(grm.term_idx("ws1").unwrap()),
        Symbol::Nonterm(grm.implicit_nonterm().unwrap()),
    ];
    let cnd2 = vec![
        Symbol::Term(grm.term_idx("ws2").unwrap()),
        Symbol::Nonterm(grm.implicit_nonterm().unwrap()),
    ];
    assert!(
        (*i_prod1 == cnd1 && *i_prod2 == cnd2) || (*i_prod1 == cnd2 && *i_prod2 == cnd1)
    );
    let i_prod3 = grm.prod(grm.nonterm_to_prods(i_rule_idx)[2]);
    assert_eq!(i_prod3.len(), 0);
}

#[test]
fn test_has_path() {
    let grm = yacc_grm(
        YaccKind::Original,
        "
            %start A
            %%
            A: B;
            B: B 'x' | C;
            C: C 'y' | ;
          ",
    )
    .unwrap();

    let a_nt_idx = grm.nonterm_idx("A").unwrap();
    let b_nt_idx = grm.nonterm_idx("B").unwrap();
    let c_nt_idx = grm.nonterm_idx("C").unwrap();
    assert!(grm.has_path(a_nt_idx, b_nt_idx));
    assert!(grm.has_path(a_nt_idx, c_nt_idx));
    assert!(grm.has_path(b_nt_idx, b_nt_idx));
    assert!(grm.has_path(b_nt_idx, c_nt_idx));
    assert!(grm.has_path(c_nt_idx, c_nt_idx));
    assert!(!grm.has_path(a_nt_idx, a_nt_idx));
    assert!(!grm.has_path(b_nt_idx, a_nt_idx));
    assert!(!grm.has_path(c_nt_idx, a_nt_idx));
}

#[test]
fn test_nonterm_min_costs() {
    let grm = yacc_grm(
        YaccKind::Original,
        "
            %start A
            %%
            A: A B | ;
            B: C | D | E;
            C: 'x' B | 'x';
            D: 'y' B | 'y' 'z';
            E: 'x' A | 'x' 'y';
          ",
    )
    .unwrap();

    let scores = cfgrammar::nonterm_min_costs(&grm, &vec![1, 1, 1, 1]);
    assert_eq!(scores[usize::from(grm.nonterm_idx("A").unwrap().0)], 0);
    assert_eq!(scores[usize::from(grm.nonterm_idx("B").unwrap().0)], 1);
    assert_eq!(scores[usize::from(grm.nonterm_idx("C").unwrap().0)], 1);
    assert_eq!(scores[usize::from(grm.nonterm_idx("D").unwrap().0)], 2);
    assert_eq!(scores[usize::from(grm.nonterm_idx("E").unwrap().0)], 1);
}

#[test]
fn test_min_sentences() {
    let grm = yacc_grm(
        YaccKind::Original,
        "
            %start A
            %%
            A: A B | ;
            B: C | D;
            C: 'x' B | 'x';
            D: 'y' B | 'y' 'z';
          ",
    )
    .unwrap();

    let sg = grm.sentence_generator(|_| 1);

    let find = |nt_name: &str, str_cnds: Vec<Vec<&str>>| {
        let cnds = str_cnds
            .iter()
            .map(|x| x.iter().map(|y| grm.term_idx(y).unwrap()).collect::<Vec<TIdx>>())
            .collect::<Vec<Vec<TIdx>>>();

        let ms = sg.min_sentence(grm.nonterm_idx(nt_name).unwrap());
        if !cnds.iter().any(|x| x == &ms) {
            panic!("{:?} doesn't have any matches in {:?}", ms, str_cnds);
        }

        let min_sts = sg.min_sentences(grm.nonterm_idx(nt_name).unwrap());
        assert_eq!(cnds.len(), min_sts.len());
        for ms in min_sts {
            if !cnds.iter().any(|x| x == &ms) {
                panic!("{:?} doesn't have any matches in {:?}", ms, str_cnds);
            }
        }
    };

    find("A", vec![vec![]]);
    find("B", vec![vec!["x"]]);
    find("C", vec![vec!["x"]]);
    find("D", vec![vec!["y", "x"], vec!["y", "z"]]);
}

#[test]
fn test_nonterm_max_costs1() {
    let grm = yacc_grm(
        YaccKind::Original,
        "
            %start A
            %%
            A: A B | ;
            B: C | D | E;
            C: 'x' B | 'x';
            D: 'y' B | 'y' 'z';
            E: 'x' A | 'x' 'y';
          ",
    )
    .unwrap();

    let scores = cfgrammar::nonterm_max_costs(&grm, &vec![1, 1, 1, 1]);
    assert_eq!(scores[usize::from(grm.nonterm_idx("A").unwrap().0)], u32::MAX);
    assert_eq!(scores[usize::from(grm.nonterm_idx("B").unwrap().0)], u32::MAX);
    assert_eq!(scores[usize::from(grm.nonterm_idx("C").unwrap().0)], u32::MAX);
    assert_eq!(scores[usize::from(grm.nonterm_idx("D").unwrap().0)], u32::MAX);
    assert_eq!(scores[usize::from(grm.nonterm_idx("E").unwrap().0)], u32::MAX);
}

#[test]
fn test_nonterm_max_costs2() {
    let grm = yacc_grm(
        YaccKind::Original,
        "
            %start A
            %%
            A: A B | B;
            B: C | D;
            C: 'x' 'y' | 'x';
            D: 'y' 'x' | 'y' 'x' 'z';
          ",
    )
    .unwrap();

    let scores = cfgrammar::nonterm_max_costs(&grm, &vec![1, 1, 1, 1]);
    assert_eq!(scores[usize::from(grm.nonterm_idx("A").unwrap().0)], u32::MAX);
    assert_eq!(scores[usize::from(grm.nonterm_idx("B").unwrap().0)], 3);
    assert_eq!(scores[usize::from(grm.nonterm_idx("C").unwrap().0)], 2);
    assert_eq!(scores[usize::from(grm.nonterm_idx("D").unwrap().0)], 3);
}

#[test]
fn test_max_sentence_cost_option() {
    let grm = yacc_grm(
        YaccKind::Original,
        "
            %start A
            %%
            A: A B | B;
            B: C | D;
            C: 'x' 'y' | 'x';
            D: 'y' 'x' | 'y' 'x' 'z';
          ",
    )
    .unwrap();
    let sg = grm.sentence_generator(|_| 1);
    assert_eq!(sg.max_sentence_cost(grm.nonterm_idx("A").unwrap()), None);
    assert_eq!(sg.max_sentence_cost(grm.nonterm_idx("B").unwrap()), Some(3));
    assert_eq!(sg.min_sentence_cost(grm.nonterm_idx("B").unwrap()), 1);
}

#[test]
fn test_out_of_order_productions() {
    // The rules' productions keep their source order even when a rule's
    // alternatives are split across the file.
    let grm = yacc_grm(
        YaccKind::Original,
        "
            %start S
            %%
            S: A 'c' 'd'
             | B 'c' 'e';
            A: 'a';
            B: 'a'
             | 'b';
            A: 'b';
            ",
    )
    .unwrap();

    assert_eq!(
        prods_rules_of(&grm),
        vec![NTIdx(1), NTIdx(1), NTIdx(2), NTIdx(3), NTIdx(3), NTIdx(2), NTIdx(0)]
    );
}

#[test]
fn test_validation_through_text() {
    match yacc_grm(YaccKind::Original, "%start A %% B: ;") {
        Err(m) => assert_eq!(m, "Start rule 'A' does not appear in grammar"),
        Ok(_) => panic!("expected a validation error"),
    }
    match yacc_grm(YaccKind::Original, "%start A %% A: B;") {
        Err(m) => assert_eq!(m, "Unknown reference to rule 'B'"),
        Ok(_) => panic!("expected a validation error"),
    }
}

#[test]
fn test_name_idx_roundtrip() {
    let grm = yacc_grm(YaccKind::Original, "%start R %token T %% R : S; S: 'T';").unwrap();
    for i in grm.iter_nonterm_idxs() {
        assert_eq!(grm.nonterm_idx(grm.nonterm_name(i)), Some(i));
    }
    for t in 0..(grm.terms_len() as usize - 1) {
        let name = grm.term_name(TIdx(t)).unwrap().to_string();
        assert_eq!(grm.term_idx(&name), Some(TIdx(t)));
    }
}

#[test]
fn test_min_sentence_matches_min_cost() {
    let grm = yacc_grm(
        YaccKind::Original,
        "
            %start A
            %%
            A: A B | ;
            B: C | D;
            C: 'x' B | 'x';
            D: 'y' B | 'y' 'z';
          ",
    )
    .unwrap();
    let sg = grm.sentence_generator(|_| 3);
    for i in grm.iter_nonterm_idxs() {
        let sent = sg.min_sentence(i);
        assert_eq!(sent.len() as u32 * 3, sg.min_sentence_cost(i));
        for s in sg.min_sentences(i) {
            assert_eq!(s.len() as u32 * 3, sg.min_sentence_cost(i));
        }
    }
}

use proof_script::{Command, Inference, ParseError, Parser};

fn chars(s: &str) -> Vec<char> {
    s.chars().collect()
}

fn parse(src: &str) -> Result<Inference, ParseError> {
    Parser::new(src).parse()
}

fn labels(i: &Inference) -> Vec<String> {
    i.labels().clone()
}

#[test]
fn header_goal_strips_periods_and_spaces() {
    let p = Parser::new("Theorem foo: P -> P.\nProof.\nexact h.\n");
    assert_eq!(p.extract_goal(), Ok("P->P".to_string()));
}

#[test]
fn header_goal_keeps_text_after_last_colon() {
    let p = Parser::new("Theorem foo: a: b:Q.\n");
    assert_eq!(p.extract_goal(), Ok("Q".to_string()));
}

#[test]
fn header_without_theorem_line() {
    assert_eq!(parse("Proof.\nexact h.\n").err(), Some(ParseError::MissingTheorem));
}

#[test]
fn header_without_colon() {
    assert_eq!(parse("Theorem foo P.\nProof.\nexact h.\n").err(), Some(ParseError::MalformedHeader));
}

#[test]
fn end_to_end_single_exact() {
    let root = parse("Theorem t1: P.\nProof.\nexact h1.\nQed.\n").unwrap();
    assert_eq!(root.cmd(), Command::Theorem);
    assert_eq!(root.body(), "P");
    assert!(root.labels().is_empty());
    assert_eq!(root.infers().len(), 1);
    let step = &root.infers()[0];
    assert_eq!(step.cmd(), Command::Exact);
    assert_eq!(labels(step), vec!["h1".to_string()]);
    assert_eq!(step.body(), "body tba...");
    assert_eq!(step.cmd().num_infers(), 0);
    assert!(step.infers().is_empty());
}

#[test]
fn lines_after_the_tree_are_left_unread() {
    let mut p = Parser::new("Theorem t1: P.\nProof.\nexact h1.\nQed.\n");
    assert!(p.parse().is_ok());
    let next: Option<String> = p.next().map(|l| l.iter().collect());
    assert_eq!(next, Some("Qed.".to_string()));
}

#[test]
fn con_i_with_one_step_runs_out() {
    let r = parse("Theorem t: P.\nProof.\ncon_i.\nexact h1.\n");
    assert_eq!(r.err(), Some(ParseError::UnexpectedEndOfInput));
}

#[test]
fn missing_proof_marker_runs_out() {
    let r = parse("Theorem t: P.\nexact h1.\n");
    assert_eq!(r.err(), Some(ParseError::UnexpectedEndOfInput));
}

#[test]
fn wrong_parameter_count_is_refused() {
    let r = parse("Theorem t: P.\nProof.\nexact.\n");
    assert_eq!(r.err(), Some(ParseError::ParameterCountMismatch));
    let r = parse("Theorem t: P.\nProof.\ncon_i a.\n");
    assert_eq!(r.err(), Some(ParseError::ParameterCountMismatch));
}

#[test]
fn depth_first_tree_shape() {
    let root = parse("Theorem t: A /\\ B.\nProof.\ncon_i.\nimp_i h.\nexact h.\nexact g.\n").unwrap();
    let con = &root.infers()[0];
    assert_eq!(con.cmd(), Command::ConI);
    assert_eq!(con.infers().len(), 2);
    let first = &con.infers()[0];
    assert_eq!(first.cmd(), Command::ImpI);
    assert_eq!(labels(first), vec!["h".to_string()]);
    assert_eq!(first.infers().len(), 1);
    assert_eq!(first.infers()[0].cmd(), Command::Exact);
    assert_eq!(labels(&first.infers()[0]), vec!["h".to_string()]);
    let second = &con.infers()[1];
    assert_eq!(second.cmd(), Command::Exact);
    assert_eq!(labels(second), vec!["g".to_string()]);
}

fn count(i: &Inference) -> usize {
    1 + i.infers().iter().map(count).sum::<usize>()
}

fn check_arity(i: &Inference) {
    assert_eq!(i.infers().len(), i.cmd().num_infers());
    for c in i.infers() {
        check_arity(c);
    }
}

#[test]
fn well_formed_script_node_count_and_arity() {
    let src = "Theorem t: P.\nProof.\nimp_e h.\nneg_e x.\nPBC h.\nexact a.\nnegneg_e.\nexact b.\nexact c.\nQed.\n";
    let root = parse(src).unwrap();
    assert_eq!(root.infers().len(), 1);
    let step = &root.infers()[0];
    assert_eq!(count(step), 7);
    check_arity(step);
    assert_eq!(step.cmd(), Command::ImpE);
    assert!(step.labels().is_empty());
    assert_eq!(step.body(), "");
}

#[test]
fn unknown_command_is_a_leaf() {
    let root = parse("Theorem t: P.\nProof.\nimp_i h.\nfrobnicate a b c.\nQed.\n").unwrap();
    let imp = &root.infers()[0];
    assert_eq!(imp.infers().len(), 1);
    assert_eq!(imp.infers()[0].cmd(), Command::Unknown);
}

#[test]
fn crlf_lines() {
    let root = parse("Theorem t: P.\r\nProof.\r\nexact h1.\r\n").unwrap();
    assert_eq!(root.body(), "P");
    assert_eq!(labels(&root.infers()[0]), vec!["h1".to_string()]);
}

#[test]
fn parse_line_counts_parameters() {
    let ok = Parser::parse_line(&chars("exact h1.")).unwrap();
    assert_eq!(ok.cmd(), Command::Exact);
    assert_eq!(labels(&ok), vec!["h1".to_string()]);
    assert_eq!(Parser::parse_line(&chars("exact.")).err(), Some(ParseError::ParameterCountMismatch));
    assert_eq!(Parser::parse_line(&chars("exact a b.")).err(), Some(ParseError::ParameterCountMismatch));
    let c = Parser::parse_line(&chars("con_i.")).unwrap();
    assert_eq!(c.cmd(), Command::ConI);
    assert!(c.labels().is_empty());
    assert_eq!(c.body(), "");
    let e = Parser::parse_line(&chars("imp_e h.")).unwrap();
    assert_eq!(e.cmd(), Command::ImpE);
    assert!(e.labels().is_empty());
    let p = Parser::parse_line(&chars("Parameter x y z.")).unwrap();
    assert_eq!(p.cmd(), Command::Parameter);
    let u = Parser::parse_line(&chars("whatever")).unwrap();
    assert_eq!(u.cmd(), Command::Unknown);
    let blank = Parser::parse_line(&chars("")).unwrap();
    assert_eq!(blank.cmd(), Command::Unknown);
}

#[test]
fn command_table() {
    let table = [
        ("Parameter", Command::Parameter, None, 0),
        ("Theorem", Command::Theorem, None, 0),
        ("Proof", Command::Proof, Some(0), 0),
        ("con_i", Command::ConI, Some(0), 2),
        ("imp_i", Command::ImpI, Some(1), 1),
        ("imp_e", Command::ImpE, Some(1), 2),
        ("exact", Command::Exact, Some(1), 0),
        ("PBC", Command::PBC, Some(1), 1),
        ("neg_e", Command::NegE, Some(1), 2),
        ("negneg_e", Command::NegNegE, Some(0), 1),
        ("Qed", Command::Qed, Some(0), 0),
        ("qed", Command::Unknown, None, 0),
    ];
    for (k, c, p, n) in table {
        assert_eq!(Command::from_str(&chars(k)), c);
        assert_eq!(c.num_params(), p);
        assert_eq!(c.num_infers(), n);
    }
}

#[test]
fn cursor_skips_first_line() {
    let mut p = Parser::new("a\nb\nc");
    assert_eq!(p.next().cloned(), Some(chars("b")));
    assert_eq!(p.next().cloned(), Some(chars("c")));
    assert_eq!(p.next(), None);
    assert_eq!(p.next(), None);
}

#[test]
fn cursor_keeps_counting_past_the_end() {
    let mut p = Parser::new("a\nb");
    assert_eq!(p.cursor(), 0);
    assert_eq!(p.next().cloned(), Some(chars("b")));
    assert_eq!(p.cursor(), 1);
    assert_eq!(p.next(), None);
    assert_eq!(p.cursor(), 2);
    assert_eq!(p.next(), None);
    assert_eq!(p.cursor(), 3);
    p.skip(5);
    assert_eq!(p.cursor(), 8);
    p.skip_while(|_: &[char]| true);
    assert_eq!(p.cursor(), 9);
    let mut q = Parser::new("a\nb\nc");
    q.skip_while(|_: &[char]| false);
    assert_eq!(q.cursor(), 3);
}

#[test]
fn skip_and_skip_while() {
    let mut p = Parser::new("x\na\nb\nProof.\nc\n");
    p.skip_while(|l: &[char]| l.starts_with(&['P', 'r', 'o', 'o', 'f']));
    assert_eq!(p.next().cloned(), Some(chars("c")));
    let mut q = Parser::new("x\na\nb\nc\n");
    q.skip(2);
    assert_eq!(q.next().cloned(), Some(chars("c")));
    q.skip(10);
    assert_eq!(q.next(), None);
}

#[test]
fn inference_builders() {
    let mut i = Inference::new(Command::ImpI, "b".to_string());
    i.add_label("h".to_string());
    i.add_infer(Inference::new(Command::Exact, String::new()));
    assert_eq!(i.body(), "b");
    assert_eq!(labels(&i), vec!["h".to_string()]);
    assert_eq!(i.infers().len(), 1);
    assert_eq!(i.infers()[0].cmd(), Command::Exact);
}

#[test]
fn text_helpers() {
    assert_eq!(proof_script::text::string_of(&chars("héllo")), "héllo");
    assert_eq!(proof_script::text::chars_of("ab"), chars("ab"));
    let parts = proof_script::text::split_chars(&chars(" a  b"), ' ');
    assert_eq!(parts, vec![chars(""), chars("a"), chars(""), chars("b")]);
    let lines = proof_script::text::split_lines(&chars("a\r\nb\n\nc\r"));
    assert_eq!(lines, vec![chars("a"), chars("b"), chars(""), chars("c\r")]);
    assert!(proof_script::text::has_prefix(&chars("Proof."), "Proof"));
    assert!(!proof_script::text::has_prefix(&chars("Pro"), "Proof"));
}

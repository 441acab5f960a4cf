use byo_suite::shell::ast::{AstNode, Redirect, Word, WordPart};
use byo_suite::shell::builtin::{
    cd_target, complete_builtin, export_assignments, export_listing, get, run, BuiltinCmd, CommandKind,
    CompletionSource,
};
use byo_suite::shell::error::ParseError;
use byo_suite::shell::exec::{
    redirect_files, redirect_operator, signal_status, stage_plan, stage_step, OpenMode, StageStep, StreamSource,
};
use byo_suite::shell::expander::{
    expand_command, expand_pipeline, expand_redirect, expand_word, glob_redirect, pick_redirect_target,
    ExpandError, ExpandedRedirect,
};
use byo_suite::shell::parser::Parser;
use byo_suite::shell::runtime::{assoc_get, is_valid_identifier, ExecStatus, ShellState};
use byo_suite::shell::token::Token;

fn lit(s: &str) -> Token {
    Token::Literal(s.to_string())
}

fn parse(tokens: Vec<Token>) -> Result<AstNode, ParseError> {
    Parser::new(tokens).parse_pipeline()
}

fn no_env() -> Vec<(String, String)> {
    Vec::new()
}

fn word_texts(w: &Word) -> Vec<String> {
    w.parts
        .iter()
        .map(|p| match p {
            WordPart::Literal(s) => format!("L:{}", s),
            WordPart::Var(s) => format!("V:{}", s),
            WordPart::LastStatus => "?".to_string(),
        })
        .collect()
}

#[test]
fn parses_a_simple_command() {
    let ast = parse(vec![lit("echo"), Token::WordSep, lit("hi"), Token::WordSep, lit("there")]).unwrap();
    match ast {
        AstNode::Command(c) => {
            assert_eq!(word_texts(&c.name), vec!["L:echo"]);
            assert_eq!(c.args.len(), 2);
            assert_eq!(word_texts(&c.args[1]), vec!["L:there"]);
            assert!(matches!(c.redirect, Redirect::Absent));
        }
        other => panic!("unexpected {:?}", other),
    }
}

#[test]
fn adjacent_parts_form_one_word() {
    let toks = vec![lit("echo"), Token::WordSep, lit("a"), Token::VarExpand("X".to_string()), Token::LastStatus];
    match parse(toks).unwrap() {
        AstNode::Command(c) => {
            assert_eq!(c.args.len(), 1);
            assert_eq!(word_texts(&c.args[0]), vec!["L:a", "V:X", "?"]);
        }
        other => panic!("unexpected {:?}", other),
    }
}

#[test]
fn parses_redirections() {
    let toks = vec![lit("cat"), Token::WordSep, Token::RedirectIn, lit("in.txt")];
    match parse(toks).unwrap() {
        AstNode::Command(c) => match c.redirect {
            Redirect::Input(w) => assert_eq!(word_texts(&w), vec!["L:in.txt"]),
            other => panic!("unexpected {:?}", other),
        },
        other => panic!("unexpected {:?}", other),
    }
    let toks = vec![lit("ls"), Token::RedirectErrAppend, lit("log")];
    match parse(toks).unwrap() {
        AstNode::Command(c) => assert!(matches!(c.redirect, Redirect::ErrorAppend(_))),
        other => panic!("unexpected {:?}", other),
    }
}

#[test]
fn the_last_redirection_wins() {
    let toks = vec![lit("ls"), Token::RedirectOut, lit("a"), Token::RedirectAppend, lit("b")];
    match parse(toks).unwrap() {
        AstNode::Command(c) => match c.redirect {
            Redirect::Append(w) => assert_eq!(word_texts(&w), vec!["L:b"]),
            other => panic!("unexpected {:?}", other),
        },
        other => panic!("unexpected {:?}", other),
    }
}

#[test]
fn parses_pipelines_to_the_right() {
    let toks = vec![lit("a"), Token::Pipe, lit("b"), Token::WordSep, Token::Pipe, lit("c")];
    match parse(toks).unwrap() {
        AstNode::Pipeline(l, r) => {
            assert!(matches!(*l, AstNode::Command(_)));
            assert!(matches!(*r, AstNode::Pipeline(_, _)));
        }
        other => panic!("unexpected {:?}", other),
    }
}

#[test]
fn parse_errors() {
    assert_eq!(parse(vec![]).err(), Some(ParseError::ExpectedWord));
    assert_eq!(parse(vec![Token::Pipe]).err(), Some(ParseError::ExpectedWord));
    assert_eq!(parse(vec![lit("a"), Token::Pipe]).err(), Some(ParseError::PipeMissingRhs));
    assert_eq!(parse(vec![lit("a"), Token::RedirectOut]).err(), Some(ParseError::ExpectedWord));
    assert_eq!(parse(vec![lit("a"), Token::WordSep, Token::WordSep]).err(), Some(ParseError::UnexpectedToken));
}

#[test]
fn parse_error_messages() {
    assert_eq!(ParseError::EmptyInput.message(), "empty input");
    assert_eq!(ParseError::WhitespaceOnly.message(), "whitespace only input");
    assert_eq!(ParseError::TrailingEscape.message(), "trailing escape");
    assert_eq!(ParseError::UnterminatedSingleQuote.message(), "unclosed single quote");
    assert_eq!(ParseError::UnterminatedDoubleQuote.message(), "unclosed double quote");
    assert_eq!(ParseError::ExpectedWord.message(), "expect arguments");
    assert_eq!(ParseError::UnexpectedToken.message(), "unexpected input");
    assert_eq!(ParseError::PipeMissingRhs.message(), "pipe without rhs");
}

#[test]
fn variables_set_get_unset() {
    let mut st = ShellState::new();
    let env = vec![("HOME".to_string(), "/home/u".to_string())];
    assert_eq!(st.get_var("X", &env), None);
    assert_eq!(st.get_var("HOME", &env), Some("/home/u".to_string()));
    st.set_var("X".to_string(), "1".to_string());
    st.set_var("X".to_string(), "2".to_string());
    assert_eq!(st.get_var("X", &env), Some("2".to_string()));
    st.set_var("HOME".to_string(), "/tmp".to_string());
    assert_eq!(st.get_var("HOME", &env), Some("/tmp".to_string()));
    st.unset_var("X");
    assert_eq!(st.get_var("X", &env), None);
    st.unset_var("HOME");
    assert_eq!(st.get_var("HOME", &env), Some("/home/u".to_string()));
}

#[test]
fn export_marks_the_name() {
    let mut st = ShellState::new();
    st.export_var("P".to_string(), "v".to_string());
    assert!(st.exported.contains(&"P".to_string()));
    assert_eq!(st.get_var("P", &no_env()), Some("v".to_string()));
    st.unset_var("P");
    assert!(!st.exported.contains(&"P".to_string()));
}

#[test]
fn assoc_get_takes_the_last_binding() {
    let s = vec![("a".to_string(), "1".to_string()), ("a".to_string(), "2".to_string())];
    assert_eq!(assoc_get(&s, "a"), Some("2".to_string()));
    assert_eq!(assoc_get(&s, "b"), None);
}

#[test]
fn identifiers() {
    assert!(is_valid_identifier("_x1"));
    assert!(is_valid_identifier("PATH"));
    assert!(!is_valid_identifier(""));
    assert!(!is_valid_identifier("1x"));
    assert!(!is_valid_identifier("a-b"));
}

#[test]
fn expands_words() {
    let mut st = ShellState::new();
    st.last_status = -3;
    st.set_var("X".to_string(), "ex".to_string());
    let env = vec![("Y".to_string(), "why".to_string())];
    let w = Word::new(vec![
        WordPart::Literal("<".to_string()),
        WordPart::Var("X".to_string()),
        WordPart::Var("Y".to_string()),
        WordPart::Var("Z".to_string()),
        WordPart::LastStatus,
        WordPart::Literal(">".to_string()),
    ]);
    assert_eq!(expand_word(&w, &st, &env), "<exwhy-3>");
}

#[test]
fn expands_commands_and_redirections() {
    let st = ShellState::new();
    let toks = vec![lit("echo"), Token::WordSep, Token::LastStatus, Token::RedirectOut, lit("f"), Token::VarExpand("N".to_string())];
    let env = vec![("N".to_string(), "1".to_string())];
    let c = match parse(toks).unwrap() {
        AstNode::Command(c) => c,
        other => panic!("unexpected {:?}", other),
    };
    let e = expand_command(&c, &st, &env).unwrap();
    assert_eq!(e.name, "echo");
    assert_eq!(e.args, vec!["0".to_string()]);
    assert!(matches!(e.redirect, ExpandedRedirect::Output(ref p) if p == "f1"));
    let r = expand_redirect(&Redirect::Input(Word::new(vec![WordPart::Literal("in".to_string())])), &st, &env).unwrap();
    assert!(matches!(r, ExpandedRedirect::Input(ref p) if p == "in"));
    assert!(matches!(expand_redirect(&Redirect::Absent, &st, &env).unwrap(), ExpandedRedirect::Absent));
}

#[test]
fn expands_every_stage_of_a_pipeline() {
    let st = ShellState::new();
    let toks = vec![lit("a"), Token::Pipe, lit("b"), Token::WordSep, lit("x"), Token::Pipe, lit("c")];
    let cmds = expand_pipeline(parse(toks).unwrap(), &st, &no_env()).unwrap();
    let names: Vec<&str> = cmds.iter().map(|c| c.name.as_str()).collect();
    assert_eq!(names, vec!["a", "b", "c"]);
    assert_eq!(cmds[1].args, vec!["x".to_string()]);
}

#[test]
fn redirect_targets_need_exactly_one_name() {
    assert!(matches!(pick_redirect_target(vec![]), Err(ExpandError::EmptyRedirect)));
    assert_eq!(pick_redirect_target(vec!["a".to_string()]).unwrap(), "a");
    assert!(matches!(
        pick_redirect_target(vec!["a".to_string(), "b".to_string()]),
        Err(ExpandError::AmbiguousRedirect)
    ));
    assert_eq!(ExpandError::UndefinedVariable("Q".to_string()).message(), "undefined variable: Q");
    assert_eq!(ExpandError::AmbiguousRedirect.message(), "ambiguous redirect");
    assert_eq!(ExpandError::EmptyRedirect.message(), "empty redirect target");
}

#[test]
fn builtin_names() {
    assert_eq!(get("cd"), Some(BuiltinCmd::Cd));
    assert_eq!(get("complete"), Some(BuiltinCmd::Complete));
    assert_eq!(get("echo"), Some(BuiltinCmd::Echo));
    assert_eq!(get("exit"), Some(BuiltinCmd::Exit));
    assert_eq!(get("export"), Some(BuiltinCmd::Export));
    assert_eq!(get("pwd"), Some(BuiltinCmd::Pwd));
    assert_eq!(get("type"), Some(BuiltinCmd::Type));
    assert_eq!(get("unset"), Some(BuiltinCmd::Unset));
    assert_eq!(get("ls"), None);
    assert_eq!(get("CD"), None);
}

#[test]
fn type_reports_the_kind_of_command() {
    let args = vec!["echo".to_string()];
    let out = run(&args, &CommandKind::Builtin);
    assert_eq!(out.stdout, "echo is a shell builtin\n");
    assert_eq!(out.stderr, "");
    assert_eq!(out.status, ExecStatus::Code(0));
    let ls = vec!["ls".to_string()];
    let out = run(&ls, &CommandKind::External { name: "ls".to_string(), path: "/bin/ls".to_string() });
    assert_eq!(out.stdout, "ls is /bin/ls\n");
    assert_eq!(out.status, ExecStatus::Code(0));
    let nope = vec!["nope".to_string()];
    let out = run(&nope, &CommandKind::NotFound);
    assert_eq!(out.stdout, "nope: not found\n");
    assert_eq!(out.status, ExecStatus::Code(1));
    let out = run(&[], &CommandKind::NotFound);
    assert_eq!(out.stdout, "");
    assert_eq!(out.stderr, "type: missing argument\n");
    assert_eq!(out.status, ExecStatus::Code(1));
}

#[test]
fn completion_sources() {
    assert!(matches!(complete_builtin("cd", "do"), CompletionSource::Path { ref prefix, dirs_only: true } if prefix == "do"));
    assert!(matches!(complete_builtin("export", "$$PA"), CompletionSource::Env { ref prefix } if prefix == "PA"));
    assert!(matches!(complete_builtin("unset", "HO"), CompletionSource::Env { ref prefix } if prefix == "HO"));
    assert!(matches!(complete_builtin("cat", "fi"), CompletionSource::Path { ref prefix, dirs_only: false } if prefix == "fi"));
}

#[test]
fn redirections_pick_streams() {
    let f = redirect_files(&ExpandedRedirect::Append("o".to_string()));
    assert!(f.stdin.is_none() && f.stderr.is_none());
    let out = f.stdout.unwrap();
    assert_eq!(out.path, "o");
    assert_eq!(out.mode, OpenMode::Append);
    let f = redirect_files(&ExpandedRedirect::ErrorOutput("e".to_string()));
    assert_eq!(f.stderr.unwrap().mode, OpenMode::Truncate);
    let f = redirect_files(&ExpandedRedirect::Input("i".to_string()));
    assert_eq!(f.stdin.unwrap().mode, OpenMode::Read);
    let f = redirect_files(&ExpandedRedirect::Absent);
    assert!(f.stdin.is_none() && f.stdout.is_none() && f.stderr.is_none());
}

#[test]
fn redirect_operators() {
    assert_eq!(redirect_operator(false, OpenMode::Read), "<");
    assert_eq!(redirect_operator(false, OpenMode::Truncate), ">");
    assert_eq!(redirect_operator(false, OpenMode::Append), ">>");
    assert_eq!(redirect_operator(true, OpenMode::Truncate), "2>");
    assert_eq!(redirect_operator(true, OpenMode::Append), "2>>");
}

#[test]
fn pipes_win_over_redirections() {
    let r = ExpandedRedirect::Output("out".to_string());
    let mid = stage_plan(&r, true, false);
    assert!(matches!(mid.stdin, StreamSource::PreviousPipe));
    assert!(matches!(mid.stdout, StreamSource::NextPipe));
    assert!(matches!(mid.stderr, StreamSource::Inherit));
    assert!(matches!(mid.overridden, Some(ref f) if f.path == "out" && f.mode == OpenMode::Truncate));
    let last = stage_plan(&r, true, true);
    assert!(last.overridden.is_none());
    assert!(matches!(last.stdout, StreamSource::File(ref f) if f.path == "out" && f.mode == OpenMode::Truncate));
    let first = stage_plan(&ExpandedRedirect::Input("in".to_string()), false, false);
    assert!(matches!(first.stdin, StreamSource::File(ref f) if f.path == "in"));
    let piped_in = stage_plan(&ExpandedRedirect::Input("in".to_string()), true, true);
    assert!(matches!(piped_in.stdin, StreamSource::PreviousPipe));
    assert!(matches!(piped_in.overridden, Some(ref f) if f.path == "in" && f.mode == OpenMode::Read));
    let alone = stage_plan(&ExpandedRedirect::Absent, false, true);
    assert!(matches!(alone.stdin, StreamSource::Inherit));
    assert!(matches!(alone.stdout, StreamSource::Inherit));
}

#[test]
fn stages_spawn_fork_or_stop() {
    let r = ExpandedRedirect::Absent;
    let ext = CommandKind::External { name: "ls".to_string(), path: "/bin/ls".to_string() };
    assert!(matches!(stage_step("ls", &ext, &r, false, false), StageStep::Spawn(ref p) if matches!(p.stdout, StreamSource::NextPipe)));
    assert!(matches!(stage_step("cd", &CommandKind::Builtin, &r, true, true), StageStep::Fork(ref p) if matches!(p.stdin, StreamSource::PreviousPipe)));
    match stage_step("nope", &CommandKind::NotFound, &r, false, true) {
        StageStep::Stop(m, s) => {
            assert_eq!(m, "nope: command not found");
            assert_eq!(s, ExecStatus::Code(127));
        }
        _ => panic!("a command that is not found stops the pipeline"),
    }
}

#[test]
fn killed_children_report_128_plus_the_signal() {
    assert_eq!(signal_status(9), ExecStatus::Code(137));
    assert_eq!(signal_status(2), ExecStatus::Code(130));
}

#[test]
fn cd_targets() {
    let home = Some("/home/u".to_string());
    let one = |a: &str| vec![a.to_string()];
    assert_eq!(cd_target(&[], home.clone()), Ok("/home/u".to_string()));
    assert_eq!(cd_target(&one("~"), home.clone()), Ok("/home/u".to_string()));
    assert_eq!(cd_target(&one(""), home.clone()), Ok("/home/u".to_string()));
    assert_eq!(cd_target(&one("~/src"), home.clone()), Ok("/home/u/src".to_string()));
    assert_eq!(cd_target(&one("~//etc"), home.clone()), Ok("/etc".to_string()));
    assert_eq!(cd_target(&one("~/"), Some("/".to_string())), Ok("/".to_string()));
    assert_eq!(cd_target(&one("/tmp"), home.clone()), Ok("/tmp".to_string()));
    assert_eq!(cd_target(&one("~x"), home.clone()), Ok("~x".to_string()));
    assert_eq!(
        cd_target(&["a".to_string(), "b".to_string()], home.clone()),
        Err("cd: too many arguments".to_string())
    );
    assert_eq!(cd_target(&one("x"), None), Err("cd: HOME is not defined in the environment".to_string()));
}

#[test]
fn export_sets_and_marks_names() {
    let mut st = ShellState::new();
    st.set_var("OLD".to_string(), "o".to_string());
    let env = vec![("FROMENV".to_string(), "e".to_string())];
    let args = vec!["A=1=2".to_string(), "OLD".to_string(), "FROMENV".to_string(), "NONE".to_string()];
    assert_eq!(export_assignments(&args, &mut st, &env), None);
    assert_eq!(st.get_var("A", &env), Some("1=2".to_string()));
    assert_eq!(st.get_var("NONE", &env), Some("".to_string()));
    assert_eq!(
        export_listing(&st),
        vec![
            "declare -x A=\"1=2\"".to_string(),
            "declare -x FROMENV=\"e\"".to_string(),
            "declare -x NONE=\"\"".to_string(),
            "declare -x OLD=\"o\"".to_string(),
        ]
    );
}

#[test]
fn export_stops_at_a_bad_name() {
    let mut st = ShellState::new();
    let args = vec!["OK=1".to_string(), "1BAD=2".to_string(), "LATE=3".to_string()];
    assert_eq!(
        export_assignments(&args, &mut st, &no_env()),
        Some("export: '1BAD': not a valid identifier".to_string())
    );
    assert_eq!(st.get_var("OK", &no_env()), Some("1".to_string()));
    assert_eq!(st.get_var("LATE", &no_env()), None);
    assert_eq!(export_listing(&st), vec!["declare -x OK=\"1\"".to_string()]);
}

#[test]
fn export_listing_names_each_once() {
    let mut st = ShellState::new();
    st.export_var("B".to_string(), "1".to_string());
    st.export_var("A".to_string(), "2".to_string());
    st.export_var("B".to_string(), "3".to_string());
    assert_eq!(
        export_listing(&st),
        vec!["declare -x A=\"2\"".to_string(), "declare -x B=\"3\"".to_string()]
    );
}

#[test]
fn glob_redirect_needs_exactly_one_name() {
    let r = glob_redirect(ExpandedRedirect::Output("o*".to_string()), vec!["out.txt".to_string()]).unwrap();
    match r {
        ExpandedRedirect::Output(t) => assert_eq!(t, "out.txt"),
        other => panic!("unexpected {:?}", other),
    }
    assert!(matches!(
        glob_redirect(ExpandedRedirect::Input("x*".to_string()), vec![]),
        Err(ExpandError::EmptyRedirect)
    ));
    assert!(matches!(
        glob_redirect(ExpandedRedirect::Append("*".to_string()), vec!["a".to_string(), "b".to_string()]),
        Err(ExpandError::AmbiguousRedirect)
    ));
    assert!(matches!(glob_redirect(ExpandedRedirect::Absent, vec![]), Ok(ExpandedRedirect::Absent)));
}

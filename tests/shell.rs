use cicada::expand::{
    apply_dollar_output, apply_substitution, do_expansion, env_in_token, expand_alias,
    expand_brace, expand_env, expand_glob, expand_home, expand_home_string, extend_env_blindly,
    is_arithmetic, is_glob_token, needs_expand_home, needs_globbing, next_dollar_command,
    next_substitution, should_do_dollar_command_extension, should_extend_brace,
    trim_newlines_output, trim_trailing_space_output,
};
use cicada::parser_line::cmd_to_tokens;
use cicada::shell::Shell;

fn tok(sep: &str, word: &str) -> (String, String) {
    (sep.to_string(), word.to_string())
}

#[test]
fn test_need_expand_home() {
    assert!(needs_expand_home("ls ~"));
    assert!(needs_expand_home("ls  ~  "));
    assert!(needs_expand_home("cat ~/a.py"));
    assert!(needs_expand_home("echo ~"));
    assert!(needs_expand_home("echo ~ ~~"));
    assert!(needs_expand_home("~/bin/py"));
    assert!(!needs_expand_home("echo '~'"));
    assert!(!needs_expand_home("echo \"~\""));
    assert!(!needs_expand_home("echo ~~"));
}

#[test]
fn test_needs_globbing() {
    assert!(needs_globbing("*"));
    assert!(needs_globbing("ls *"));
    assert!(needs_globbing("ls  *.txt"));
    assert!(needs_globbing("grep -i 'desc' /etc/*release*"));
    assert!(!needs_globbing("2 * 3"));
    assert!(!needs_globbing("ls '*.md'"));
    assert!(!needs_globbing("ls 'a * b'"));
    assert!(!needs_globbing("ls foo"));
}

#[test]
fn test_should_do_dollar_command_extension() {
    assert!(!should_do_dollar_command_extension("ls $HOME"));
    assert!(!should_do_dollar_command_extension("echo $[pwd]"));
    assert!(should_do_dollar_command_extension("echo $(pwd)"));
    assert!(should_do_dollar_command_extension("echo $(pwd) foo"));
    assert!(should_do_dollar_command_extension("echo $(foo bar)"));
    assert!(should_do_dollar_command_extension("echo $(echo foo)"));
    assert!(should_do_dollar_command_extension("$(pwd) foo"));
}

#[test]
fn test_expand_alias() {
    let mut sh = Shell::new();
    sh.add_alias("ls", "ls --color=auto");
    sh.add_alias("wc", "wc -l");

    let mut tokens = vec![
        ("".to_string(), "ls".to_string()),
        ("".to_string(), "|".to_string()),
        ("".to_string(), "wc".to_string()),
    ];
    let exp_tokens = vec![
        ("".to_string(), "ls".to_string()),
        ("".to_string(), "--color=auto".to_string()),
        ("".to_string(), "|".to_string()),
        ("".to_string(), "wc".to_string()),
        ("".to_string(), "-l".to_string()),
    ];
    expand_alias(&sh, &mut tokens);
    assert_eq!(tokens, exp_tokens);

    let mut tokens = vec![
        ("".to_string(), "which".to_string()),
        ("".to_string(), "ls".to_string()),
    ];
    let exp_tokens = vec![
        ("".to_string(), "which".to_string()),
        ("".to_string(), "ls".to_string()),
    ];
    expand_alias(&sh, &mut tokens);
    assert_eq!(tokens, exp_tokens);
}

#[test]
fn tokenizer_words_quotes_and_operators() {
    let t = cmd_to_tokens("echo 'a b' \"c $d\" `pwd` x\\ y|wc -l 2>&1 >>f&&g||h;i &");
    assert_eq!(
        t,
        vec![
            tok("", "echo"),
            tok("'", "a b"),
            tok("\"", "c $d"),
            tok("`", "pwd"),
            tok("", "x"),
            tok("\\", " "),
            tok("", "y"),
            tok("", "|"),
            tok("", "wc"),
            tok("", "-l"),
            tok("", "2>&1"),
            tok("", ">>"),
            tok("", "f"),
            tok("", "&&"),
            tok("", "g"),
            tok("", "||"),
            tok("", "h"),
            tok("", ";"),
            tok("", "i"),
            tok("", "&"),
        ]
    );
}

#[test]
fn tokenizer_keeps_dollar_group_in_word() {
    let t = cmd_to_tokens("echo $(echo $(echo hi)) ${FOO}x");
    assert_eq!(t, vec![tok("", "echo"), tok("", "$(echo $(echo hi))"), tok("", "${FOO}x")]);
}

#[test]
fn tokenizer_edge_cases() {
    assert_eq!(cmd_to_tokens(""), Vec::<(String, String)>::new());
    assert_eq!(cmd_to_tokens("   \t "), Vec::<(String, String)>::new());
    assert_eq!(cmd_to_tokens("echo 'open"), vec![tok("", "echo"), tok("'", "open")]);
    assert_eq!(cmd_to_tokens("a \"x\\\"y\""), vec![tok("", "a"), tok("\"", "x\\\"y")]);
    assert_eq!(cmd_to_tokens("cat 2>err"), vec![tok("", "cat"), tok("", "2>"), tok("", "err")]);
    assert_eq!(cmd_to_tokens("x\\"), vec![tok("", "x"), tok("\\", "")]);
}

#[test]
fn brace_scenario() {
    let mut t = cmd_to_tokens("echo a{1,2,3}b");
    expand_brace(&mut t);
    assert_eq!(t, vec![tok("", "echo"), tok("", "a1b"), tok("", "a2b"), tok("", "a3b")]);
}

#[test]
fn brace_without_comma_or_quoted_stays() {
    assert!(!should_extend_brace("a{b}c"));
    assert!(should_extend_brace("x{,y}"));
    let mut t = vec![tok("", "a{b}c"), tok("'", "p{q,r}"), tok("", "{,x}")];
    expand_brace(&mut t);
    assert_eq!(t, vec![tok("", "a{b}c"), tok("'", "p{q,r}"), tok("", "x")]);
}

#[test]
fn variable_scenario() {
    let mut sh = Shell::new();
    sh.set_env("FOO", "bar");
    let mut t = cmd_to_tokens("echo $FOO-$?-${FOO}");
    expand_env(&sh, &mut t, &Vec::new(), 42);
    assert_eq!(t, vec![tok("", "echo"), tok("", "bar-0-bar")]);
}

#[test]
fn variable_precedence_and_specials() {
    let mut sh = Shell::new();
    sh.previous_status = -3;
    sh.set_env("A", "shell");
    sh.set_env("B", "only-shell");
    let os = vec![tok("A", "os")];
    assert_eq!(extend_env_blindly(&sh, "$A/$B/$C/$?/$$/$", &os, 1234), "os/only-shell//-3/1234/$");
    assert_eq!(extend_env_blindly(&sh, "x$(pwd)", &os, 1), "x$(pwd)");
    assert!(env_in_token("$$"));
    assert!(env_in_token("a$?"));
    assert!(!env_in_token("a$"));
    assert!(!env_in_token("$(pwd)"));
    assert!(!env_in_token("$1"));
    assert!(!env_in_token("${1}"));
    assert!(env_in_token("${_x}"));
    assert!(env_in_token("a-$X"));
    assert_eq!(extend_env_blindly(&sh, "$1-${2}-$A", &os, 1), "$1-${2}-os");
}

#[test]
fn variables_skip_single_quotes_and_backticks() {
    let mut sh = Shell::new();
    sh.set_env("X", "1");
    let mut t = vec![tok("'", "$X"), tok("`", "$X"), tok("\"", "$X"), tok("", "$X")];
    expand_env(&sh, &mut t, &Vec::new(), 0);
    assert_eq!(t, vec![tok("'", "$X"), tok("`", "$X"), tok("\"", "1"), tok("", "1")]);
}

#[test]
fn set_env_replaces_binding() {
    let mut sh = Shell::new();
    sh.set_env("K", "1");
    sh.set_env("K", "2");
    assert_eq!(sh.get_env("K"), Some("2".to_string()));
    assert_eq!(sh.get_env("L"), None);
    assert_eq!(sh.envs.len(), 1);
}

#[test]
fn alias_lookup() {
    let mut sh = Shell::new();
    sh.add_alias("ll", "ls -l");
    sh.add_alias("e", "");
    assert!(sh.is_alias("ll"));
    assert!(sh.is_alias("e"));
    assert!(!sh.is_alias("l"));
    assert_eq!(sh.get_alias_content("ll"), Some("ls -l".to_string()));
    assert_eq!(sh.get_alias_content("e"), None);
    sh.add_alias("ll", "ls -la");
    assert_eq!(sh.get_alias_content("ll"), Some("ls -la".to_string()));
}

#[test]
fn alias_is_not_recursive() {
    let mut sh = Shell::new();
    sh.add_alias("ls", "ls -l");
    let mut t = cmd_to_tokens("ls | ls");
    expand_alias(&sh, &mut t);
    assert_eq!(t, vec![tok("", "ls"), tok("", "-l"), tok("", "|"), tok("", "ls"), tok("", "-l")]);
    let mut t = vec![tok("'", "ls")];
    expand_alias(&sh, &mut t);
    assert_eq!(t, vec![tok("'", "ls")]);
}

#[test]
fn tilde_scenarios() {
    let mut t = cmd_to_tokens("echo '~' ~ ~/x a~ ~~");
    expand_home(&mut t, "/home/u");
    assert_eq!(
        t,
        vec![tok("", "echo"), tok("'", "~"), tok("", "/home/u"), tok("", "/home/u/x"), tok("", "a~"), tok("", "~~")]
    );
    let mut s = "ls ~ ~/a b~".to_string();
    expand_home_string(&mut s, "/h");
    assert_eq!(s, "ls /h /h/a b~");
}

#[test]
fn arithmetic_and_glob_tokens() {
    assert!(is_arithmetic("2 * 3"));
    assert!(!is_arithmetic("*"));
    assert!(!is_arithmetic("12"));
    assert!(is_glob_token(&tok("", "*.rs")));
    assert!(!is_glob_token(&tok("\"", "*.rs")));
    assert!(!is_glob_token(&tok("", "2*3")));
}

#[test]
fn glob_filters_and_keeps_pattern() {
    let mut t = vec![tok("", "ls"), tok("", "*"), tok("", "d/.*"), tok("", "*.none")];
    let m = vec![
        vec![],
        vec!["a".to_string(), ".hidden".to_string(), "b c".to_string()],
        vec!["d/.".to_string(), "d/..".to_string(), "d/.rc".to_string()],
        vec![],
    ];
    expand_glob(&mut t, &m);
    assert_eq!(
        t,
        vec![tok("", "ls"), tok("", "a"), tok("\"", "b c"), tok("", "d/.rc"), tok("", "*.none")]
    );
}

#[test]
fn glob_all_hidden_keeps_pattern() {
    let mut t = vec![tok("", "*rc")];
    expand_glob(&mut t, &vec![vec![".bashrc".to_string()]]);
    assert_eq!(t, vec![tok("", "*rc")]);
}

#[test]
fn dollar_substitution_steps() {
    let w = "$(echo $(echo hi))";
    assert_eq!(next_dollar_command(w), Some("echo hi".to_string()));
    let w2 = apply_dollar_output(w, "hi\n");
    assert_eq!(w2, "$(echo hi)");
    assert_eq!(next_dollar_command(&w2), Some("echo hi".to_string()));
    let w3 = apply_dollar_output(&w2, "hi\n");
    assert_eq!(w3, "hi");
    assert_eq!(next_dollar_command(&w3), None);
    assert_eq!(apply_dollar_output("plain", "x"), "plain");
    assert_eq!(trim_trailing_space_output("  a b \n"), "  a b");
    assert_eq!(trim_trailing_space_output(" \n"), "");
    assert_eq!(trim_newlines_output(" a \n\n"), " a ");
    assert_eq!(trim_newlines_output("x\ty"), "x\ty");
}

#[test]
fn substitution_backticks_first() {
    let mut t = vec![tok("", "a$(x)"), tok("`", "date"), tok("'", "$(y)")];
    assert_eq!(next_substitution(&t), Some("date".to_string()));
    apply_substitution(&mut t, "today\n");
    assert_eq!(t, vec![tok("", "a$(x)"), tok("", "today"), tok("'", "$(y)")]);
    assert_eq!(next_substitution(&t), Some("x".to_string()));
    apply_substitution(&mut t, " 1 \n");
    assert_eq!(t, vec![tok("", "a 1"), tok("", "today"), tok("'", "$(y)")]);
    assert_eq!(next_substitution(&t), None);
}

#[test]
fn expansion_scenario_alias_then_single_quote() {
    let mut sh = Shell::new();
    sh.add_alias("ls", "ls --color=auto");
    let mut t = cmd_to_tokens("ls | wc");
    assert!(do_expansion(&sh, &mut t, "/home/u", &Vec::new(), 1));
    assert_eq!(t, vec![tok("", "ls"), tok("", "--color=auto"), tok("", "|"), tok("", "wc")]);
    let mut t = cmd_to_tokens("echo '~'");
    assert!(do_expansion(&sh, &mut t, "/home/u", &Vec::new(), 1));
    assert_eq!(t, vec![tok("", "echo"), tok("'", "~")]);
}

#[test]
fn expansion_prompt_guard() {
    let sh = Shell::new();
    let mut t = cmd_to_tokens("export PROMPT=$HOME~");
    let before = t.clone();
    assert!(!do_expansion(&sh, &mut t, "/h", &Vec::new(), 1));
    assert_eq!(t, before);
}

#[test]
fn job_ids_fill_gaps() {
    let mut sh = Shell::new();
    sh.insert_job(100, 100, "sleep 10", "Running", true);
    sh.insert_job(200, 200, "sleep 20 &", "Running", true);
    sh.insert_job(300, 300, "vim", "Stopped", false);
    assert_eq!(sh.get_job_by_id(1).unwrap().cmd, "sleep 10 &");
    assert_eq!(sh.get_job_by_id(2).unwrap().cmd, "sleep 20 &");
    assert_eq!(sh.get_job_by_id(3).unwrap().cmd, "vim");
    let done = sh.remove_pid_from_job(200, 200).unwrap();
    assert_eq!(done.id, 2);
    assert!(sh.get_job_by_id(2).is_none());
    sh.insert_job(400, 400, "top", "Running", false);
    assert_eq!(sh.get_job_by_gid(400).unwrap().id, 2);
    sh.insert_job(500, 500, "x", "Running", false);
    assert_eq!(sh.get_job_by_gid(500).unwrap().id, 4);
}

#[test]
fn job_pids_and_transitions() {
    let mut sh = Shell::new();
    sh.insert_job(10, 10, "a | b", "Running", false);
    sh.insert_job(10, 11, "a | b", "Running", false);
    assert_eq!(sh.jobs.len(), 1);
    assert_eq!(sh.get_job_by_gid(10).unwrap().pids, vec![10, 11]);
    sh.mark_job_as_stopped(10);
    assert_eq!(sh.get_job_by_gid(10).unwrap().status, "Stopped");
    sh.mark_job_as_running(10, true);
    let j = sh.get_job_by_gid(10).unwrap();
    assert_eq!(j.status, "Running");
    assert!(j.report);
    assert_eq!(j.cmd, "a | b &");
    sh.mark_job_as_running(10, true);
    assert_eq!(sh.get_job_by_gid(10).unwrap().cmd, "a | b &");
    assert!(sh.remove_pid_from_job(10, 99).is_none());
    assert!(sh.remove_pid_from_job(10, 10).is_none());
    assert_eq!(sh.get_job_by_gid(10).unwrap().pids, vec![11]);
    let j = sh.remove_pid_from_job(10, 11).unwrap();
    assert!(j.pids.is_empty());
    assert!(sh.jobs.is_empty());
    assert!(sh.remove_pid_from_job(10, 11).is_none());
    assert!(sh.get_job_by_gid(10).is_none());
}

use cicada::pipeline::{parse_pipelines, Command, Next, ParseError, Pipeline, RedirOp, Redirect};
use cicada::shell::signal_status;

fn cmd(argv: &[&str], redirs: Vec<Redirect>) -> Command {
    Command { argv: argv.iter().map(|s| s.to_string()).collect(), redirs }
}

#[test]
fn parse_pipeline_links_and_background() {
    let t = cmd_to_tokens("false && echo x ; echo y | wc -c &");
    let p = parse_pipelines(&t).unwrap();
    assert_eq!(
        p,
        vec![
            Pipeline { cmds: vec![cmd(&["false"], vec![])], background: false, next: Next::And },
            Pipeline { cmds: vec![cmd(&["echo", "x"], vec![])], background: false, next: Next::Then },
            Pipeline {
                cmds: vec![cmd(&["echo", "y"], vec![]), cmd(&["wc", "-c"], vec![])],
                background: true,
                next: Next::End,
            },
        ]
    );
}

#[test]
fn parse_redirections() {
    let t = cmd_to_tokens("sort < in > out 2>&1 2> err >> log");
    let p = parse_pipelines(&t).unwrap();
    let r = |fd: i32, op: RedirOp, target: &str| Redirect { fd, op, target: target.to_string() };
    assert_eq!(
        p,
        vec![Pipeline {
            cmds: vec![cmd(
                &["sort"],
                vec![
                    r(0, RedirOp::Read, "in"),
                    r(1, RedirOp::Write, "out"),
                    r(2, RedirOp::Dup, ""),
                    r(2, RedirOp::Write, "err"),
                    r(1, RedirOp::Append, "log"),
                ]
            )],
            background: false,
            next: Next::End,
        }]
    );
}

#[test]
fn parse_errors_and_quoted_operators() {
    assert_eq!(parse_pipelines(&cmd_to_tokens("| wc")), Err(ParseError::EmptyCommand));
    assert_eq!(parse_pipelines(&cmd_to_tokens("ls |")), Err(ParseError::EmptyCommand));
    assert_eq!(parse_pipelines(&cmd_to_tokens("ls &&")), Err(ParseError::EmptyCommand));
    assert_eq!(parse_pipelines(&cmd_to_tokens("ls ;; ls")), Err(ParseError::EmptyCommand));
    assert_eq!(parse_pipelines(&cmd_to_tokens("ls >")), Err(ParseError::MissingTarget));
    assert_eq!(parse_pipelines(&cmd_to_tokens("ls > | wc")), Err(ParseError::MissingTarget));
    assert_eq!(parse_pipelines(&cmd_to_tokens("cat << EOF")), Err(ParseError::Unsupported));
    assert_eq!(parse_pipelines(&cmd_to_tokens("")), Ok(vec![]));
    let p = parse_pipelines(&cmd_to_tokens("echo '|' ;")).unwrap();
    assert_eq!(p, vec![Pipeline { cmds: vec![cmd(&["echo", "|"], vec![])], background: false, next: Next::End }]);
}

#[test]
fn signal_status_adds_128() {
    assert_eq!(signal_status(9), 137);
    assert_eq!(signal_status(0), 128);
}

use cicada::execute::{is_builtin, runs_after, runs_in_shell};

#[test]
fn sequencing_rule() {
    assert!(runs_after(Next::Then, 1));
    assert!(runs_after(Next::And, 0));
    assert!(!runs_after(Next::And, 1));
    assert!(runs_after(Next::Or, 2));
    assert!(!runs_after(Next::Or, 0));
    assert!(runs_after(Next::End, 5));
}

#[test]
fn builtin_dispatch_rule() {
    assert!(is_builtin(&"cd".to_string()));
    assert!(is_builtin(&"jobs".to_string()));
    assert!(!is_builtin(&"ls".to_string()));
    let one = parse_pipelines(&cmd_to_tokens("cd /tmp")).unwrap();
    assert!(runs_in_shell(&one[0], false));
    assert!(!runs_in_shell(&one[0], true));
    let bg = parse_pipelines(&cmd_to_tokens("cd /tmp &")).unwrap();
    assert!(!runs_in_shell(&bg[0], false));
    let piped = parse_pipelines(&cmd_to_tokens("cd /tmp | cat")).unwrap();
    assert!(!runs_in_shell(&piped[0], false));
    let ext = parse_pipelines(&cmd_to_tokens("ls")).unwrap();
    assert!(!runs_in_shell(&ext[0], false));
}

use cicada::execute::{bare_assignment, split_assignment};

#[test]
fn assignments() {
    assert_eq!(split_assignment(&"FOO=bar".to_string()), Some(("FOO".to_string(), "bar".to_string())));
    assert_eq!(split_assignment(&"A=b=c".to_string()), Some(("A".to_string(), "b=c".to_string())));
    assert_eq!(split_assignment(&"X=".to_string()), Some(("X".to_string(), "".to_string())));
    assert_eq!(split_assignment(&"=x".to_string()), None);
    assert_eq!(split_assignment(&"plain".to_string()), None);
    let p = parse_pipelines(&cmd_to_tokens("FOO=bar")).unwrap();
    assert_eq!(bare_assignment(&p[0]), Some(("FOO".to_string(), "bar".to_string())));
    let p = parse_pipelines(&cmd_to_tokens("FOO=bar env")).unwrap();
    assert_eq!(bare_assignment(&p[0]), None);
}

#[test]
fn backtick_keeps_leading_whitespace() {
    let mut t = vec![tok("`", "printf ' a\\n'")];
    apply_substitution(&mut t, " a\n");
    assert_eq!(t, vec![tok("", " a")]);
}

#[test]
fn glob_match_with_tab_is_double_quoted() {
    let mut t = vec![tok("", "*")];
    expand_glob(&mut t, &vec![vec!["a\tb".to_string(), "c".to_string()]]);
    assert_eq!(t, vec![tok("\"", "a\tb"), tok("", "c")]);
    let mut b = vec![tok("", "x{a\tb,c}")];
    expand_brace(&mut b);
    assert_eq!(b, vec![tok("\"", "xa\tb"), tok("", "xc")]);
}

#[test]
fn set_var_follows_process_environment() {
    let mut sh = Shell::new();
    assert!(sh.set_var("HOME", "/x", true));
    assert_eq!(sh.get_env("HOME"), None);
    assert!(!sh.set_var("MINE", "1", false));
    assert_eq!(sh.get_env("MINE"), Some("1".to_string()));
}

use cicada::shell::ChildEvent;

#[test]
fn reaper_steps() {
    let mut sh = Shell::new();
    sh.insert_job(7, 7, "a | b", "Running", true);
    sh.insert_job(7, 8, "a | b", "Running", true);
    assert!(sh.on_child_event(7, 7, ChildEvent::Stopped).is_none());
    assert_eq!(sh.get_job_by_gid(7).unwrap().status, "Stopped");
    assert!(sh.on_child_event(7, 7, ChildEvent::Continued).is_none());
    assert_eq!(sh.get_job_by_gid(7).unwrap().status, "Running");
    assert_eq!(sh.get_job_by_gid(7).unwrap().cmd, "a | b &");
    assert!(sh.on_child_event(7, 7, ChildEvent::Exited(0)).is_none());
    let done = sh.on_child_event(7, 8, ChildEvent::Signaled(9)).unwrap();
    assert_eq!(done.id, 1);
    assert!(sh.jobs.is_empty());
    assert!(sh.on_child_event(7, 8, ChildEvent::Exited(0)).is_none());
}

#[test]
fn job_methods_keep_the_shell_record() {
    let mut sh = Shell::new();
    sh.cmd = "sleep 1 &".to_string();
    sh.previous_cmd = "ls".to_string();
    sh.previous_dir = "/tmp".to_string();
    sh.previous_status = 3;
    sh.insert_job(5, 5, "sleep 1", "Running", true);
    sh.mark_job_as_running(6, true);
    sh.add_alias("x", "y");
    sh.set_env("V", "1");
    sh.remove_pid_from_job(5, 5);
    assert_eq!(sh.cmd, "sleep 1 &");
    assert_eq!(sh.previous_cmd, "ls");
    assert_eq!(sh.previous_dir, "/tmp");
    assert_eq!(sh.previous_status, 3);
}

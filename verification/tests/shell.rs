use bf_jit::shell::{
    builtin, command, parse_redirect, try_redirect, Builtin, Command, ShellError,
};

#[test]
fn test_execute() {
    let command = command("echo foo bar").unwrap();
    assert_eq!(
        command,
        Command::Execute {
            argv: vec!["echo".into(), "foo".into(), "bar".into()]
        }
    );
}

#[test]
fn main_test_escape() {
    let command = command(r###"echo "FOO" 'BAR' "FOO"'BAR'"###).unwrap();
    assert_eq!(
        command,
        Command::Execute {
            argv: vec!["echo".into(), "FOO".into(), "BAR".into(), "FOOBAR".into()]
        }
    );
}

#[test]
fn test_pipe() {
    let command = command("ls | grep foo").unwrap();
    assert_eq!(
        command,
        Command::Pipe {
            left: Box::new(Command::Execute {
                argv: vec!["ls".into()]
            }),
            right: Box::new(Command::Execute {
                argv: vec!["grep".into(), "foo".into()]
            })
        }
    );
}

#[test]
fn test_redirect() {
    let command = command("echo HELLO > output.txt").unwrap();
    assert_eq!(
        command,
        Command::Redirect {
            op: '>',
            file: "output.txt".into(),
            command: Box::new(Command::Execute {
                argv: vec!["echo".into(), "HELLO".into()]
            }),
        }
    );
}

#[test]
fn test_complex_redirect() {
    let command = command("echo A B>X C").unwrap();
    assert_eq!(
        command,
        Command::Redirect {
            op: '>',
            file: "X".into(),
            command: Box::new(Command::Execute {
                argv: vec!["echo".into(), "A".into(), "B".into(), "C".into()]
            }),
        }
    );
}

#[test]
fn test_complex() {
    let command =
        command("cat < input.txt | grep keyword | grep -v exclude > output.txt").unwrap();
    assert_eq!(
        command,
        Command::Pipe {
            left: Box::new(Command::Redirect {
                op: '<',
                file: "input.txt".into(),
                command: Box::new(Command::Execute {
                    argv: vec!["cat".into()]
                })
            }),
            right: Box::new(Command::Pipe {
                left: Box::new(Command::Execute {
                    argv: vec!["grep".into(), "keyword".into()]
                }),
                right: Box::new(Command::Redirect {
                    op: '>',
                    file: "output.txt".into(),
                    command: Box::new(Command::Execute {
                        argv: vec!["grep".into(), "-v".into(), "exclude".into()]
                    }),
                })
            })
        }
    );
}

#[test]
fn test_two_redirects() {
    let command = command("sort < in.txt > out.txt").unwrap();
    assert_eq!(
        command,
        Command::Redirect {
            op: '<',
            file: "in.txt".into(),
            command: Box::new(Command::Redirect {
                op: '>',
                file: "out.txt".into(),
                command: Box::new(Command::Execute {
                    argv: vec!["sort".into()]
                }),
            }),
        }
    );
}

#[test]
fn test_tab_and_newline_separate() {
    let command = command("\techo \n\ta").unwrap();
    assert_eq!(
        command,
        Command::Execute {
            argv: vec!["echo".into(), "a".into()]
        }
    );
}

#[test]
fn test_only_a_blank_ends_a_bare_word() {
    let command = command("a\tb c").unwrap();
    assert_eq!(
        command,
        Command::Execute {
            argv: vec!["a\tb".into(), "c".into()]
        }
    );
}

#[test]
fn test_quotes_keep_blanks_and_bars() {
    let command = command("echo 'a | b' \"c > d\"").unwrap();
    assert_eq!(
        command,
        Command::Execute {
            argv: vec!["echo".into(), "a | b".into(), "c > d".into()]
        }
    );
}

#[test]
fn test_empty_line_is_no_command() {
    assert_eq!(command(""), Err(ShellError::Syntax));
    assert_eq!(command("   "), Err(ShellError::Syntax));
}

#[test]
fn test_trailing_blank_is_refused() {
    assert_eq!(command("echo "), Err(ShellError::Syntax));
}

#[test]
fn test_open_quote_is_refused() {
    assert_eq!(command("echo \"abc"), Err(ShellError::Syntax));
    assert_eq!(command("echo ''"), Err(ShellError::Syntax));
}

#[test]
fn test_bar_without_command_is_refused() {
    assert_eq!(command("ls |"), Err(ShellError::Syntax));
    assert_eq!(command("| ls"), Err(ShellError::Syntax));
}

#[test]
fn test_operator_without_file() {
    assert_eq!(command("echo >"), Err(ShellError::MissingFile));
    assert_eq!(command("ls | cat <"), Err(ShellError::MissingFile));
}

#[test]
fn test_parse_redirect_takes_operator_and_file_out() {
    let tokens: Vec<String> = vec!["a".into(), ">".into(), "f".into(), "b".into()];
    assert_eq!(
        parse_redirect(&tokens),
        Command::Redirect {
            op: '>',
            file: "f".into(),
            command: Box::new(Command::Execute {
                argv: vec!["a".into(), "b".into()]
            }),
        }
    );
    let plain: Vec<String> = vec!["a".into(), "b".into()];
    assert_eq!(
        parse_redirect(&plain),
        Command::Execute {
            argv: vec!["a".into(), "b".into()]
        }
    );
}

#[test]
fn test_try_redirect_reports_missing_file() {
    let tokens: Vec<String> = vec!["a".into(), "<".into()];
    assert_eq!(try_redirect(&tokens), None);
}

#[test]
fn test_builtins() {
    assert_eq!(builtin(&command("exit").unwrap()), Builtin::Exit);
    assert_eq!(builtin(&command("exit now please").unwrap()), Builtin::Exit);
    assert_eq!(builtin(&command("cd").unwrap()), Builtin::Home);
    assert_eq!(
        builtin(&command("cd /tmp").unwrap()),
        Builtin::Directory("/tmp".to_string())
    );
    assert_eq!(builtin(&command("cd a b").unwrap()), Builtin::Spawn);
    assert_eq!(builtin(&command("ls").unwrap()), Builtin::Spawn);
    assert_eq!(builtin(&command("exit | cat").unwrap()), Builtin::Spawn);
    assert_eq!(builtin(&command("cd > out").unwrap()), Builtin::Spawn);
    assert_eq!(builtin(&Command::Execute { argv: vec![] }), Builtin::Spawn);
}

use oxi::modelfile::{home_parts, message_from_args, parse_file, plan_request, Command, FileCommand, ParserError};

#[test]
fn parse_basic() {
    let input = "FROM model\nPARAMETER foo bar\n";
    let m = parse_file(input).unwrap();
    assert_eq!(m.commands.len(), 2);
}

#[test]
fn parse_trim_space() {
    let input = "FROM \" model \"\nPARAMETER a b\n";
    let mf = parse_file(input).unwrap();
    assert_eq!(mf.commands[0].args, " model ");
}

#[test]
fn parse_from_cases() {
    let cases = vec![
        ("FROM foo", vec![Command { name: "model".into(), args: "foo".into() }], None),
        ("", vec![], Some(ParserError::MissingFrom)),
    ];
    for (inp, expected_cmds, err) in cases {
        let res = parse_file(inp);
        if let Some(e) = err {
            assert_eq!(res.unwrap_err(), e);
        } else {
            assert_eq!(res.unwrap().commands, expected_cmds);
        }
    }
}

#[test]
fn parse_bad_command() {
    let input = "FROM foo\nBAD what\n";
    let err = parse_file(input).unwrap_err();
    assert_eq!(err, ParserError::InvalidCommand);
}

#[test]
fn parse_messages() {
    let input = "FROM foo\nMESSAGE user Hello\n";
    let mf = parse_file(input).unwrap();
    assert_eq!(mf.commands[1].args, "user: Hello");
}

#[test]
fn parse_quoted() {
    let input = "FROM foo\nSYSTEM \"\"\"\nHello\n\"\"\"\n";
    let mf = parse_file(input).unwrap();
    assert_eq!(mf.commands[1].args, "\nHello\n");
}

#[test]
fn parse_keywords_ignore_case_and_comments() {
    let input = "# a comment\r\n\r\nfrom base\r\nTemplate {{ .Prompt }}   \r\nlicense \"MIT\"\r\n";
    let mf = parse_file(input).unwrap();
    assert_eq!(
        mf.commands,
        vec![
            Command { name: "model".into(), args: "base".into() },
            Command { name: "template".into(), args: "{{ .Prompt }}".into() },
            Command { name: "license".into(), args: "MIT".into() },
        ]
    );
}

#[test]
fn parse_triple_quote_on_one_line() {
    let mf = parse_file("FROM m\nSYSTEM \"\"\"be brief\"\"\" trailing\n").unwrap();
    assert_eq!(mf.commands[1].args, "be brief");
}

#[test]
fn parse_unterminated_quotes_fail() {
    assert_eq!(parse_file("FROM m\nSYSTEM \"\"\"\nnever closed\n").unwrap_err(), ParserError::UnexpectedEOF);
    assert_eq!(parse_file("FROM \"m\n").unwrap_err(), ParserError::UnexpectedEOF);
}

#[test]
fn parse_message_role_checked() {
    assert_eq!(parse_file("FROM m\nMESSAGE robot hi\n").unwrap_err(), ParserError::InvalidMessageRole);
    let mf = parse_file("FROM m\nMESSAGE assistant \"hi there\"\n").unwrap();
    assert_eq!(mf.commands[1].args, "assistant: hi there");
}

#[test]
fn parse_parameter_needs_value() {
    assert_eq!(parse_file("FROM m\nPARAMETER temperature\n").unwrap_err(), ParserError::UnexpectedEOF);
    let mf = parse_file("FROM m\nPARAMETER stop \"<|end|>\"\n").unwrap();
    assert_eq!(mf.commands[1], Command { name: "stop".into(), args: "<|end|>".into() });
}

#[test]
fn parse_without_from_fails() {
    assert_eq!(parse_file("SYSTEM hi\n").unwrap_err(), ParserError::MissingFrom);
}

#[test]
fn parser_error_messages() {
    assert_eq!(ParserError::MissingFrom.to_string(), "no FROM line");
    assert_eq!(ParserError::UnexpectedEOF.to_string(), "unexpected end of file");
    assert_eq!(
        ParserError::InvalidMessageRole.to_string(),
        "message role must be one of \"system\", \"user\", or \"assistant\""
    );
    assert_eq!(
        ParserError::InvalidCommand.to_string(),
        "command must be one of \"from\", \"license\", \"template\", \"system\", \"adapter\", \"parameter\", or \"message\""
    );
}

#[test]
fn message_args_split_at_first_colon() {
    let m = message_from_args("user:  Hello: world ").unwrap();
    assert_eq!(m.role, "user");
    assert_eq!(m.content, "Hello: world");
    assert!(message_from_args("no colon").is_none());
}

#[test]
fn plan_request_basic() {
    let input = "FROM test\nTEMPLATE some template\nLICENSE MIT\nPARAMETER temperature 0.5\nMESSAGE user Hello\n";
    let plan = plan_request(&parse_file(input).unwrap());
    assert_eq!(plan.files, vec![FileCommand::Model("test".into())]);
    assert_eq!(plan.template, "some template");
    assert_eq!(plan.licenses, vec!["MIT".to_string()]);
    assert_eq!(plan.messages.len(), 1);
    assert_eq!(plan.messages[0].role, "user");
    assert_eq!(plan.messages[0].content, "Hello");
    assert_eq!(plan.parameters, vec![("temperature".to_string(), vec!["0.5".to_string()])]);
}

#[test]
fn plan_request_groups_parameter_values() {
    let input = "FROM a\nADAPTER b\nPARAMETER stop x\nPARAMETER num_ctx 2\nPARAMETER stop y\nSYSTEM one\nSYSTEM two\n";
    let plan = plan_request(&parse_file(input).unwrap());
    assert_eq!(plan.files, vec![FileCommand::Model("a".into()), FileCommand::Adapter("b".into())]);
    assert_eq!(
        plan.parameters,
        vec![
            ("stop".to_string(), vec!["x".to_string(), "y".to_string()]),
            ("num_ctx".to_string(), vec!["2".to_string()]),
        ]
    );
    assert_eq!(plan.system, "two");
    assert!(plan.messages.is_empty() && plan.licenses.is_empty() && plan.template.is_empty());
}

#[test]
fn home_parts_cases() {
    let s = |a: &str, b: &str| Some((a.to_string(), b.to_string()));
    assert_eq!(home_parts("~"), s("", ""));
    assert_eq!(home_parts("~/myfolder/myfile.txt"), s("", "myfolder/myfile.txt"));
    assert_eq!(home_parts("~anotheruser/docs/file.txt"), s("anotheruser", "docs/file.txt"));
    assert_eq!(home_parts("~another\\docs"), s("another", "docs"));
    assert_eq!(home_parts("relative/path/to/file"), None);
    assert_eq!(home_parts("/absolute/~path"), None);
}

#[test]
fn digest_text_names_the_sha256() {
    assert_eq!(
        oxi::modelfile::digest_text(b"abc"),
        "sha256:ba7816bf8f01cfea414140de5dae2223b00361a396177a9cb410ff61f20015ad"
    );
    assert_eq!(oxi::modelfile::digest_name(&[0x00, 0xab, 0x0f]), "sha256:00ab0f");
}

#[test]
fn path_plans() {
    assert_eq!(oxi::modelfile::path_plan("/abs/x", true), oxi::modelfile::PathPlan::AsGiven);
    assert_eq!(
        oxi::modelfile::path_plan("~another/docs", false),
        oxi::modelfile::PathPlan::Home { user: "another".into(), rest: "docs".into() }
    );
    assert_eq!(oxi::modelfile::path_plan("relative/file", false), oxi::modelfile::PathPlan::FromBase);
    assert_eq!(oxi::modelfile::base_plan(true, false), oxi::modelfile::BasePlan::WorkingDir);
    assert_eq!(oxi::modelfile::base_plan(false, true), oxi::modelfile::BasePlan::GivenDir);
    assert_eq!(oxi::modelfile::base_plan(false, false), oxi::modelfile::BasePlan::WorkingDirJoined);
}

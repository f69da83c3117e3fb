use lambda_rust::commands::{tokenize, ArgType, Command, CommandCall, Commands, InvalidCommand};

#[test]
fn test_matching() {
    let commands = Commands::new()
        .add(Command::nullary("abc"))
        .add(Command::nullary("def"))
        .add(Command::nullary("ddd"))
        .done();
    assert_eq!(vec![&Command::nullary("abc")], commands.match_str("a"));
    assert_eq!(vec![&Command::nullary("def"), &Command::nullary("ddd")], commands.match_str("d"));
    assert_eq!(Vec::<&Command>::new(), commands.match_str("ad"));
    assert_eq!(
        vec![&Command::nullary("abc"), &Command::nullary("def"), &Command::nullary("ddd")],
        commands.match_str("")
    );
}

#[test]
fn test_parsing() {
    let foo = Command::with_arities("foo", ArgType::Number, vec![1, 2]);
    let commands = Commands::new().add(foo.clone()).done();

    {
        let text = "foo 1 2";
        assert_eq!(Err(InvalidCommand(text)), commands.parse(text));
    }

    {
        let text = " : foo 1 2";
        assert_eq!(Ok(CommandCall { command: &foo, args: vec!["1", "2"] }), commands.parse(text),);
    }

    {
        let text = ":foo 8";
        assert_eq!(Ok(CommandCall { command: &foo, args: vec!["8"] }), commands.parse(text),);
    }

    {
        let text = ":foo ";
        assert_eq!(Err(InvalidCommand(text)), commands.parse(text));
    }

    {
        let text = ":foo 1 2 3";
        assert_eq!(Err(InvalidCommand(text)), commands.parse(text));
    }

    {
        let text = ":bar";
        assert_eq!(Err(InvalidCommand(text)), commands.parse(text));
    }
}

#[test]
fn ambiguous_prefix_is_invalid_and_any_arity_accepted() {
    let commands = Commands::new()
        .add(Command::nullary("echo"))
        .add(Command::nullary("exit"))
        .add(Command::new("show", ArgType::Symbol))
        .done();
    assert_eq!(Err(InvalidCommand(":e")), commands.parse(":e"));
    let call = commands.parse(":ec").unwrap();
    assert_eq!(call.command.name, "echo");
    let call = commands.parse(":s a b c").unwrap();
    assert_eq!(call.args, vec!["a", "b", "c"]);
}

#[test]
fn tokenize_splits_after_the_colon() {
    let (cmd, pos, args) = tokenize("  :reductions  12 x").unwrap();
    assert_eq!(cmd, "reductions");
    assert_eq!(pos, 3);
    assert_eq!(args, vec!["12", "x"]);
    let (cmd, pos, args) = tokenize(":").unwrap();
    assert_eq!(cmd, "");
    assert_eq!(pos, 1);
    assert!(args.is_empty());
    assert!(tokenize("no colon").is_none());
}

#[test]
fn help_texts() {
    let mut out = String::new();
    Command::with_arities("echo", ArgType::Boolean, vec![0, 1]).write_help(&mut out);
    assert_eq!(out, "echo\nUSAGE:\n\t:echo\n\t:echo Boolean\n");

    let mut out = String::new();
    Command::new("show", ArgType::Symbol).write_help(&mut out);
    assert_eq!(out, "show\nUSAGE:\n\t:show [Symbol...]\n");

    let commands = Commands::new().with_help().add(Command::nullary("quit")).done();
    let mut out = String::new();
    commands.write_help(&mut out, None);
    assert_eq!(out, "Commands:\n\tquit\n\thelp\n");

    let mut out = String::new();
    commands.write_help(&mut out, Some("nope"));
    assert_eq!(out, "No commands with name: nope\nCommands:\n\tquit\n\thelp\n");

    let mut out = String::new();
    commands.write_help(&mut out, Some("help"));
    assert_eq!(out, "help\nUSAGE:\n\t:help\n\t:help Command\n");
}

#[test]
fn call_and_error_texts() {
    let commands = Commands::new().add(Command::with_arities("foo", ArgType::Number, vec![2])).done();
    let call = commands.parse(" :f  1   2").unwrap();
    assert_eq!(call.to_string(), ":foo 1 2");
    let err = commands.parse(":f").unwrap_err();
    assert_eq!(err.to_string(), "Invalid command: :f");
}

use minarg::text::append_decimal;
use minarg::{
    appeared, assign_parameters, is_option_or_subcommand, option_exists, parameters, parse,
    parse_inputs, subcommand_exists, Arg, ArgType, Args, Config, ConfigBuilder, ParameterCount,
    ParseError,
};

fn strings(items: &[&str]) -> Vec<String> {
    items.iter().map(|s| String::from(*s)).collect()
}

fn arity_message(r: Result<Args, ParseError>) -> String {
    match r {
        Err(ParseError::InvalidNumberOfParameters(m)) => m,
        other => panic!("expected an arity error, got {:?}", other),
    }
}

#[test]
fn unknown_option_is_rejected() {
    let config = ConfigBuilder::default()
        .add_short_flag("test1".into(), 't')
        .build();
    let r = parse_inputs(config, strings(&["-z"]), "prog".into());
    match r {
        Err(ParseError::InvalidOption(t)) => assert_eq!(t, "-z"),
        other => panic!("expected InvalidOption, got {:?}", other),
    }
}

#[test]
fn unknown_option_after_loose_tokens_is_rejected() {
    let config = ConfigBuilder::default()
        .add_long_flag("test1".into(), "test1".into())
        .build();
    let r = parse_inputs(config, strings(&["a", "--test1", "b", "--test"]), "prog".into());
    match r {
        Err(ParseError::InvalidOption(t)) => assert_eq!(t, "--test"),
        other => panic!("expected InvalidOption, got {:?}", other),
    }
}

#[test]
fn lone_dash_is_an_unknown_option() {
    let config = ConfigBuilder::default()
        .add_short_flag("test1".into(), 't')
        .build();
    let r = parse_inputs(config, strings(&["-"]), "prog".into());
    match r {
        Err(ParseError::InvalidOption(t)) => assert_eq!(t, "-"),
        other => panic!("expected InvalidOption, got {:?}", other),
    }
}

#[test]
fn empty_command_line_has_no_program_name() {
    let config = ConfigBuilder::default().build();
    let r = parse(config, Vec::new());
    assert!(matches!(r, Err(ParseError::NoProgramName)));
}

#[test]
fn command_line_starts_with_program_name() {
    let config = ConfigBuilder::default()
        .add_subcommand("sub".into(), ParameterCount::Exact(1))
        .build();
    let r = parse(config, strings(&["prog", "x", "sub", "y", "z"])).unwrap();
    assert_eq!(&Some(strings(&["x", "z"])), r.get("prog").unwrap());
    assert_eq!(&Some(strings(&["y"])), r.get("sub").unwrap());
    assert!(r.get("x").is_none());
}

#[test]
fn program_name_alone_gives_empty_list() {
    let config = ConfigBuilder::default()
        .add_short_flag("test1".into(), 't')
        .build();
    let r = parse(config, strings(&["prog"])).unwrap();
    assert_eq!(&Some(Vec::<String>::new()), r.get("prog").unwrap());
    assert_eq!(&None, r.get("test1").unwrap());
}

#[test]
fn never_matched_is_none() {
    let config = ConfigBuilder::default()
        .add_short_option("test1".into(), 't', ParameterCount::Exact(1))
        .add_long_flag("test2".into(), "two".into())
        .add_subcommand("sub".into(), ParameterCount::Zero)
        .build();
    let r = parse_inputs(config, strings(&["a", "--two", "b"]), "prog".into()).unwrap();
    assert_eq!(&None, r.get("test1").unwrap());
    assert_eq!(&None, r.get("sub").unwrap());
    assert_eq!(&Some(Vec::<String>::new()), r.get("test2").unwrap());
    assert_eq!(&Some(strings(&["a", "b"])), r.get("prog").unwrap());
    assert!(r.get("other").is_none());
}

#[test]
fn flag_matched_twice_stays_empty() {
    let config = ConfigBuilder::default()
        .add_flag("test1".into(), 't', "test1".into())
        .build();
    let r = parse_inputs(config, strings(&["-t", "x", "--test1"]), "prog".into()).unwrap();
    assert_eq!(&Some(Vec::<String>::new()), r.get("test1").unwrap());
    assert_eq!(&Some(strings(&["x"])), r.get("prog").unwrap());
}

#[test]
fn option_matched_twice_appends() {
    let config = ConfigBuilder::default()
        .add_option("test1".into(), 't', "test1".into(), ParameterCount::Exact(1))
        .build();
    let r = parse_inputs(config, strings(&["-t", "x", "--test1", "y"]), "prog".into()).unwrap();
    assert_eq!(&Some(strings(&["x", "y"])), r.get("test1").unwrap());
}

#[test]
fn exact_fails_when_tokens_run_out() {
    let config = ConfigBuilder::default()
        .add_short_option("test1".into(), 't', ParameterCount::Exact(2))
        .build();
    let m = arity_message(parse_inputs(config, strings(&["-t", "a"]), "prog".into()));
    assert_eq!(
        m,
        "There are only 1 parameters to supply (Argument test1[short: -t]) with instead of 2"
    );
}

#[test]
fn exact_fails_on_a_declared_token() {
    let config = ConfigBuilder::default()
        .add_option("both".into(), 'b', "both".into(), ParameterCount::Exact(12))
        .add_subcommand("sub".into(), ParameterCount::Zero)
        .build();
    let m = arity_message(parse_inputs(
        config,
        strings(&["--both", "a", "b", "sub", "c"]),
        "prog".into(),
    ));
    assert_eq!(
        m,
        "There are only 2 parameters to supply (Argument both [short: -b, long: --both ] ) with instead of 12"
    );
}

#[test]
fn exact_takes_an_undeclared_option_shaped_token() {
    let config = ConfigBuilder::default()
        .add_short_option("test1".into(), 't', ParameterCount::Exact(1))
        .build();
    let r = parse_inputs(config, strings(&["-t", "-z"]), "prog".into()).unwrap();
    assert_eq!(&Some(strings(&["-z"])), r.get("test1").unwrap());
}

#[test]
fn exact_zero_takes_nothing() {
    let config = ConfigBuilder::default()
        .add_subcommand("sub".into(), ParameterCount::Exact(0))
        .build();
    let r = parse_inputs(config, strings(&["sub", "a"]), "prog".into()).unwrap();
    assert_eq!(&Some(Vec::<String>::new()), r.get("sub").unwrap());
    assert_eq!(&Some(strings(&["a"])), r.get("prog").unwrap());
}

#[test]
fn more_takes_four_parameters() {
    let config = ConfigBuilder::default()
        .add_long_option("test1".into(), "test1".into(), ParameterCount::More(2))
        .add_short_option("test2".into(), 't', ParameterCount::Exact(1))
        .add_subcommand("sub".into(), ParameterCount::Zero)
        .build();
    let r = parse_inputs(
        config,
        strings(&["hello", "--test1", "a", "b", "c", "d", "sub", "-t", "e"]),
        "prog".into(),
    )
    .unwrap();
    assert_eq!(&Some(strings(&["hello"])), r.get("prog").unwrap());
    assert_eq!(&Some(strings(&["a", "b", "c", "d"])), r.get("test1").unwrap());
    assert_eq!(&Some(Vec::<String>::new()), r.get("sub").unwrap());
    assert_eq!(&Some(strings(&["e"])), r.get("test2").unwrap());
}

#[test]
fn more_fails_at_an_early_boundary() {
    let config = ConfigBuilder::default()
        .add_long_option("test1".into(), "test1".into(), ParameterCount::More(2))
        .add_subcommand("sub".into(), ParameterCount::Zero)
        .build();
    let m = arity_message(parse_inputs(
        config,
        strings(&["--test1", "a", "b", "sub"]),
        "prog".into(),
    ));
    assert_eq!(m, "(Argument test1 [long: --test1 ] ) expected at least 3 parameters but got 2");
}

#[test]
fn more_fails_at_an_early_end() {
    let config = ConfigBuilder::default()
        .add_subcommand("sub".into(), ParameterCount::More(0))
        .build();
    let m = arity_message(parse_inputs(config, strings(&["sub"]), "prog".into()));
    assert_eq!(m, "(Argument sub) expected at least 1 parameters but got 0");
}

#[test]
fn more_takes_everything_up_to_the_end() {
    let config = ConfigBuilder::default()
        .add_subcommand("sub".into(), ParameterCount::More(0))
        .build();
    let r = parse_inputs(config, strings(&["sub", "a", "-z", "b"]), "prog".into()).unwrap();
    assert_eq!(&Some(strings(&["a", "-z", "b"])), r.get("sub").unwrap());
    assert_eq!(&Some(Vec::<String>::new()), r.get("prog").unwrap());
}

#[test]
fn more_with_largest_bound_reports_next_number() {
    let config = ConfigBuilder::default()
        .add_subcommand("sub".into(), ParameterCount::More(usize::MAX))
        .build();
    let m = arity_message(parse_inputs(config, strings(&["sub", "a"]), "prog".into()));
    let least = (usize::MAX as u128) + 1;
    assert_eq!(
        m,
        format!("(Argument sub) expected at least {} parameters but got 1", least)
    );
}

#[test]
fn less_caps_at_two() {
    let config = ConfigBuilder::default()
        .add_subcommand("sub".into(), ParameterCount::Less(3))
        .build();
    let r = parse_inputs(config, strings(&["sub", "5arg", "6arg", "7arg"]), "prog".into()).unwrap();
    assert_eq!(&Some(strings(&["5arg", "6arg"])), r.get("sub").unwrap());
    assert_eq!(&Some(strings(&["7arg"])), r.get("prog").unwrap());
}

#[test]
fn less_stops_at_a_boundary_and_at_the_end() {
    let config = ConfigBuilder::default()
        .add_subcommand("sub".into(), ParameterCount::Less(5))
        .add_short_flag("flag".into(), 'f')
        .build();
    let r = parse_inputs(config, strings(&["sub", "a", "-f", "sub", "b"]), "prog".into()).unwrap();
    assert_eq!(&Some(strings(&["a", "b"])), r.get("sub").unwrap());
    assert_eq!(&Some(Vec::<String>::new()), r.get("flag").unwrap());
    assert_eq!(&Some(Vec::<String>::new()), r.get("prog").unwrap());
}

#[test]
fn less_of_one_and_of_zero_take_nothing() {
    let config = ConfigBuilder::default()
        .add_subcommand("one".into(), ParameterCount::Less(1))
        .add_subcommand("zero".into(), ParameterCount::Less(0))
        .build();
    let r = parse_inputs(config, strings(&["one", "a", "zero", "b"]), "prog".into()).unwrap();
    assert_eq!(&Some(Vec::<String>::new()), r.get("one").unwrap());
    assert_eq!(&Some(Vec::<String>::new()), r.get("zero").unwrap());
    assert_eq!(&Some(strings(&["a", "b"])), r.get("prog").unwrap());
}

#[test]
fn short_option_is_found_by_second_character() {
    let config = ConfigBuilder::default()
        .add_short_flag("test1".into(), 't')
        .add_short_flag("again".into(), 't')
        .build();
    let r = parse_inputs(config, strings(&["-tail"]), "prog".into()).unwrap();
    assert_eq!(&Some(Vec::<String>::new()), r.get("test1").unwrap());
    assert_eq!(&None, r.get("again").unwrap());
}

#[test]
fn long_option_needs_the_whole_word() {
    let config = ConfigBuilder::default()
        .add_long_flag("test1".into(), "test".into())
        .build();
    let r = parse_inputs(config, strings(&["--tes"]), "prog".into());
    assert!(matches!(r, Err(ParseError::InvalidOption(_))));
}

#[test]
fn parsing_twice_gives_the_same() {
    let tokens = strings(&["x", "-t", "a", "b", "sub", "y"]);
    let make = || {
        ConfigBuilder::default()
            .add_short_option("test1".into(), 't', ParameterCount::Exact(2))
            .add_subcommand("sub".into(), ParameterCount::Less(2))
            .add_long_flag("quiet".into(), "quiet".into())
            .build()
    };
    let first = parse_inputs(make(), tokens.clone(), "prog".into()).unwrap();
    let second = parse_inputs(make(), tokens, "prog".into()).unwrap();
    for name in ["prog", "test1", "sub", "quiet", "absent"] {
        assert_eq!(first.get(name), second.get(name));
    }
    assert_eq!(&Some(strings(&["x"])), first.get("prog").unwrap());
    assert_eq!(&Some(strings(&["a", "b"])), first.get("test1").unwrap());
    assert_eq!(&Some(strings(&["y"])), first.get("sub").unwrap());
    assert_eq!(&None, first.get("quiet").unwrap());
}

#[test]
fn appeared_and_parameters_read_the_table() {
    let config = ConfigBuilder::default()
        .add_short_option("test1".into(), 't', ParameterCount::Exact(1))
        .add_short_flag("test2".into(), 'u')
        .build();
    let r = parse_inputs(config, strings(&["-t", "a"]), "prog".into()).unwrap();
    assert!(appeared("test1", &r));
    assert!(!appeared("test2", &r));
    assert!(appeared("prog", &r));
    assert!(!appeared("other", &r));
    assert_eq!(Some(&strings(&["a"])), parameters("test1", &r));
    assert_eq!(None, parameters("test2", &r));
    assert_eq!(Some(&Vec::<String>::new()), parameters("prog", &r));
    assert_eq!(None, parameters("other", &r));
}

#[test]
fn table_insert_get_record() {
    let mut t = Args::new();
    assert!(t.get("a").is_none());
    t.insert("a".into(), None);
    t.insert("b".into(), Some(strings(&["x"])));
    assert_eq!(&None, t.get("a").unwrap());
    t.record("a", strings(&["y"]));
    t.record("b", strings(&["z", "w"]));
    t.record("c", strings(&["v"]));
    assert_eq!(&Some(strings(&["y"])), t.get("a").unwrap());
    assert_eq!(&Some(strings(&["x", "z", "w"])), t.get("b").unwrap());
    assert_eq!(&Some(strings(&["v"])), t.get("c").unwrap());
    t.insert("b".into(), None);
    assert_eq!(&None, t.get("b").unwrap());
    assert_eq!(&Some(strings(&["y"])), t.get("a").unwrap());
}

#[test]
fn lookups_find_the_first_declared() {
    let config: Config = ConfigBuilder::default()
        .add_subcommand("-s".into(), ParameterCount::Zero)
        .add_option("first".into(), 's', "same".into(), ParameterCount::Zero)
        .add_long_option("second".into(), "same".into(), ParameterCount::Exact(1))
        .add_subcommand("sub".into(), ParameterCount::Zero)
        .build();
    assert_eq!(option_exists("--same", &config.args).unwrap().name, "first");
    assert_eq!(option_exists("-s", &config.args).unwrap().name, "first");
    assert!(option_exists("--s", &config.args).is_none());
    assert!(option_exists("--", &config.args).is_none());
    assert!(option_exists("sub", &config.args).is_none());
    assert_eq!(subcommand_exists("sub", &config.args).unwrap().name, "sub");
    assert_eq!(subcommand_exists("-s", &config.args).unwrap().name, "-s");
    assert!(subcommand_exists("first", &config.args).is_none());
    assert_eq!(is_option_or_subcommand("-s", &config.args).unwrap().name, "first");
    assert_eq!(is_option_or_subcommand("sub", &config.args).unwrap().name, "sub");
    assert!(is_option_or_subcommand("-x", &config.args).is_none());
    assert!(is_option_or_subcommand("same", &config.args).is_none());
}

#[test]
fn assign_parameters_moves_the_position() {
    let config = ConfigBuilder::default()
        .add_subcommand("sub".into(), ParameterCount::Exact(2))
        .build();
    let tokens = strings(&["sub", "a", "b", "c"]);
    let mut pos: usize = 1;
    let mut params = strings(&["old"]);
    let arg = &config.args[0];
    let r = assign_parameters(&tokens, &mut pos, arg.parameter_count, &mut params, &config.args, arg);
    assert!(r.is_ok());
    assert_eq!(pos, 3);
    assert_eq!(params, strings(&["old", "a", "b"]));

    let tokens = strings(&["sub", "a", "sub", "c"]);
    let mut pos: usize = 1;
    let mut params: Vec<String> = Vec::new();
    let r = assign_parameters(&tokens, &mut pos, arg.parameter_count, &mut params, &config.args, arg);
    assert!(matches!(r, Err(ParseError::InvalidNumberOfParameters(_))));
    assert_eq!(pos, 3);
    assert_eq!(params, strings(&["a"]));

    let mut pos: usize = 4;
    let mut params: Vec<String> = Vec::new();
    let r = assign_parameters(&tokens, &mut pos, ParameterCount::Less(4), &mut params, &config.args, arg);
    assert!(r.is_ok());
    assert_eq!(pos, 4);
    assert!(params.is_empty());
}

#[test]
fn builder_keeps_declaration_order_and_fields() {
    let config = ConfigBuilder::default()
        .add_short_option("a".into(), 'a', ParameterCount::Exact(1))
        .add_long_option("b".into(), "bee".into(), ParameterCount::More(2))
        .add_option("c".into(), 'c', "sea".into(), ParameterCount::Less(3))
        .add_flag("d".into(), 'd', "dee".into())
        .add_short_flag("e".into(), 'e')
        .add_long_flag("f".into(), "eff".into())
        .add_subcommand("g".into(), ParameterCount::Exact(7))
        .build();
    let names: Vec<&str> = config.args.iter().map(|a| a.name.as_str()).collect();
    assert_eq!(names, vec!["a", "b", "c", "d", "e", "f", "g"]);
    let shorts: Vec<Option<char>> = config.args.iter().map(|a| a.short).collect();
    assert_eq!(shorts, vec![Some('a'), None, Some('c'), Some('d'), Some('e'), None, None]);
    let longs: Vec<Option<&str>> = config.args.iter().map(|a| a.long.as_deref()).collect();
    assert_eq!(longs, vec![None, Some("bee"), Some("sea"), Some("dee"), None, Some("eff"), None]);
    for a in config.args.iter().take(6) {
        assert_eq!(a.kind, ArgType::Option);
    }
    assert_eq!(config.args[6].kind, ArgType::Subcommand);
    assert!(matches!(config.args[0].parameter_count, ParameterCount::Exact(1)));
    assert!(matches!(config.args[1].parameter_count, ParameterCount::More(2)));
    assert!(matches!(config.args[2].parameter_count, ParameterCount::Less(3)));
    assert!(matches!(config.args[3].parameter_count, ParameterCount::Zero));
    assert!(matches!(config.args[4].parameter_count, ParameterCount::Zero));
    assert!(matches!(config.args[5].parameter_count, ParameterCount::Zero));
    assert!(matches!(config.args[6].parameter_count, ParameterCount::Exact(7)));
}

#[test]
fn defaults() {
    assert!(matches!(ParameterCount::default(), ParameterCount::Zero));
    assert_eq!(ArgType::default(), ArgType::Option);
    let a = Arg::default();
    assert_eq!(a.name, "");
    assert_eq!(a.short, None);
    assert_eq!(a.long, None);
    assert_eq!(a.kind, ArgType::Option);
    assert!(matches!(a.parameter_count, ParameterCount::Zero));
    assert!(ConfigBuilder::default().build().args.is_empty());
}

#[test]
fn argument_text_has_four_forms() {
    let config = ConfigBuilder::default()
        .add_option("a".into(), 'x', "long".into(), ParameterCount::Zero)
        .add_short_flag("b".into(), 'y')
        .add_long_flag("c".into(), "sea".into())
        .add_subcommand("d".into(), ParameterCount::Zero)
        .build();
    assert_eq!(config.args[0].to_text(), "(Argument a [short: -x, long: --long ] )");
    assert_eq!(config.args[1].to_text(), "(Argument b[short: -y])");
    assert_eq!(config.args[2].to_text(), "(Argument c [long: --sea ] )");
    assert_eq!(config.args[3].to_text(), "(Argument d)");
}

#[test]
fn error_messages() {
    assert_eq!(
        ParseError::InvalidOption("-z".into()).message(),
        "Invalid option encountered: -z"
    );
    assert_eq!(
        ParseError::InvalidCommand("cmd".into()).message(),
        "Invalid subcommand encountered: cmd"
    );
    assert_eq!(
        ParseError::InvalidNumberOfParameters("why".into()).message(),
        "The number of parameters constraint is not satisfied: why"
    );
    assert_eq!(ParseError::NoProgramName.message(), "There were no command line arguments.");
}

#[test]
fn decimal_numbers_are_appended() {
    let mut s = String::from("n=");
    append_decimal(&mut s, 0);
    s.push(',');
    append_decimal(&mut s, 7);
    s.push(',');
    append_decimal(&mut s, 1234567890);
    s.push(',');
    append_decimal(&mut s, u128::MAX);
    assert_eq!(s, format!("n=0,7,1234567890,{}", u128::MAX));
}

#[test]
fn program_name_shared_with_an_argument() {
    let config = ConfigBuilder::default()
        .add_subcommand("prog".into(), ParameterCount::Exact(1))
        .build();
    let r = parse_inputs(config, strings(&["a", "prog", "b", "c"]), "prog".into()).unwrap();
    assert_eq!(&Some(strings(&["a", "b", "c"])), r.get("prog").unwrap());
}

#[test]
fn exact_reports_the_number_of_tokens_it_got() {
    let config = ConfigBuilder::default()
        .add_subcommand("sub".into(), ParameterCount::Exact(3))
        .build();
    let tokens = strings(&["a"]);
    let mut pos: usize = 0;
    let mut params: Vec<String> = Vec::new();
    let arg = &config.args[0];
    let r = assign_parameters(&tokens, &mut pos, arg.parameter_count, &mut params, &config.args, arg);
    match r {
        Err(ParseError::InvalidNumberOfParameters(m)) => assert_eq!(
            m,
            "There are only 1 parameters to supply (Argument sub) with instead of 3"
        ),
        other => panic!("expected an arity error, got {:?}", other),
    }
    assert_eq!(pos, 1);
    assert_eq!(params, strings(&["a"]));

    let m = arity_message(parse_inputs(
        ConfigBuilder::default()
            .add_subcommand("sub".into(), ParameterCount::Exact(3))
            .build(),
        strings(&["sub"]),
        "prog".into(),
    ));
    assert_eq!(m, "There are only 0 parameters to supply (Argument sub) with instead of 3");
}

#[test]
fn declared_but_unmatched_did_not_appear() {
    let config = ConfigBuilder::default()
        .add_short_flag("quiet".into(), 'q')
        .add_short_flag("loud".into(), 'l')
        .build();
    let r = parse_inputs(config, strings(&["-l"]), "prog".into()).unwrap();
    assert!(!appeared("quiet", &r));
    assert!(appeared("loud", &r));
    assert!(appeared("prog", &r));
    assert!(!appeared("absent", &r));
    assert_eq!(&None, r.get("quiet").unwrap());
}

#[test]
fn table_lists_and_counts_its_names() {
    let mut t = Args::new();
    assert_eq!(t.len(), 0);
    assert!(t.keys().is_empty());
    t.insert("a".into(), None);
    t.insert("b".into(), Some(strings(&["x"])));
    t.insert("a".into(), Some(Vec::new()));
    t.record("c", strings(&["v"]));
    t.record("b", strings(&["w"]));
    assert_eq!(t.len(), 3);
    assert_eq!(t.keys(), strings(&["a", "b", "c"]));

    let config = ConfigBuilder::default()
        .add_short_flag("quiet".into(), 'q')
        .add_subcommand("sub".into(), ParameterCount::Zero)
        .add_long_flag("quiet".into(), "quiet".into())
        .build();
    let r = parse_inputs(config, strings(&["x", "sub"]), "prog".into()).unwrap();
    assert_eq!(r.len(), 3);
    let mut names = r.keys();
    names.sort();
    assert_eq!(names, strings(&["prog", "quiet", "sub"]));
}

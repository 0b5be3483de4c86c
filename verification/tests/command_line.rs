use wire_client::cli::{
    self, parse_args, parse_class, parse_race, split_passwords, ArgsStop, Class, Command,
    Endpoints, Invocation, ParsedArgs, Race, DEFAULT_HOST, DEFAULT_LOGON_PORT, DEFAULT_WORLD_PORT,
};
use wire_client::modes::{self, Plan};

fn argv(s: &str) -> Vec<String> {
    s.split_whitespace().map(str::to_string).collect()
}

fn accepted(s: &str) -> ParsedArgs {
    match parse_args(&argv(s)) {
        Ok(p) => p,
        Err(stop) => panic!("{stop:?}"),
    }
}

fn refused(s: &str) -> String {
    match parse_args(&argv(s)) {
        Err(ArgsStop::Refused(text)) => text,
        other => panic!("{other:?}"),
    }
}

#[test]
fn every_flag_may_stand_anywhere() {
    let base = "--account A smoke one two --password-stdin --host h -5";
    let p = accepted(base);
    for moved in [
        "smoke one two --account A --host h --password-stdin -5",
        "--password-stdin smoke one --host h two --account A -5",
        "smoke --host h one two -5 --password-stdin --account A",
    ] {
        let q = accepted(moved);
        assert_eq!((q.account, q.args, q.endpoints.logon_addr), (
            p.account.clone(),
            p.args.clone(),
            p.endpoints.logon_addr.clone(),
        ));
    }
    for help in ["smoke --help one --account A", "smoke one --account A --help", "smoke one --account A -h"] {
        assert!(matches!(parse_args(&argv(help)), Err(ArgsStop::Help)));
    }
    assert_eq!(refused("--bogus smoke one --account A"), refused("smoke one --account A --bogus"));
    assert_eq!(refused("--class elf smoke --account A"), refused("smoke --account A --class elf"));
}

#[test]
fn smoke_needs_only_a_target_and_credentials() {
    let p = accepted("smoke --host 10.0.0.5 --account TESTER --character Tester --password-stdin");
    assert!(matches!(p.command, Command::Smoke));
    assert_eq!(p.endpoints.logon_addr, "10.0.0.5:3724");
    assert_eq!(p.endpoints.world_addr_override, None);
    assert_eq!(p.account, "TESTER");
    assert_eq!(p.character, "Tester");
}

#[test]
fn every_endpoint_piece_is_configurable() {
    let p = accepted(
        "smoke --host wow.example.com --logon-port 3725 --world-port 8086 \
         --account A --password-stdin",
    );
    assert_eq!(p.endpoints.logon_addr, "wow.example.com:3725");
    assert_eq!(p.endpoints.world_addr("192.168.0.9:8085"), "wow.example.com:8086");
}

#[test]
fn without_a_world_port_the_realm_list_answer_is_honored() {
    let e = Endpoints::new("10.0.0.5", 3724, None);
    assert_eq!(e.world_addr("203.0.113.7:8085"), "203.0.113.7:8085");
    assert_eq!(e.world_addr(""), format!("{DEFAULT_HOST}:{DEFAULT_WORLD_PORT}"));
}

#[test]
fn there_is_no_default_account_and_no_password_flag() {
    let err = refused("smoke --password-stdin");
    assert!(err.contains("--account is required"), "{err}");
    let err = refused("smoke --account A");
    assert!(err.contains("--password-stdin is required"), "{err}");
    let err = refused("TEST test123 Ginger");
    assert!(err.contains("unknown command"), "{err}");
    let err = refused("smoke --account A --password hunter2");
    assert!(err.contains("unknown flag --password"), "{err}");
}

#[test]
fn scenario_args_pass_through_including_negative_coordinates() {
    let p = accepted(
        "scenario walkmelee -8968 -129 83.4 -8800 -129 83.4 oneway \
         --account A --character C --password-stdin",
    );
    assert!(matches!(&p.command, Command::Scenario(name) if name == "walkmelee"));
    assert_eq!(p.args, argv("-8968 -129 83.4 -8800 -129 83.4 oneway"));
}

#[test]
fn a_double_dash_makes_the_rest_positional() {
    let p = accepted("scenario echo --account A --password-stdin -- --host --not-a-flag");
    assert_eq!(p.args, argv("--host --not-a-flag"));
    assert_eq!(p.endpoints.logon_addr, format!("{DEFAULT_HOST}:{DEFAULT_LOGON_PORT}"));
}

#[test]
fn stdin_carries_the_primary_password_then_the_peers() {
    assert_eq!(split_passwords("hunter2"), ("hunter2".into(), vec![]));
    assert_eq!(split_passwords("hunter2\n"), ("hunter2".into(), vec![]));
    assert_eq!(split_passwords("hunter2\r\n"), ("hunter2".into(), vec![]));
    assert_eq!(
        split_passwords("a\nb\nc\n"),
        ("a".into(), vec!["b".to_string(), "c".to_string()])
    );
}

#[test]
fn a_missing_peer_password_says_how_to_supply_it() {
    let inv = Invocation {
        command: Command::Scenario("say-range".into()),
        endpoints: Endpoints::default(),
        account: "A".into(),
        character: "C".into(),
        class: Class::Warrior,
        race: Race::Human,
        password: "p".into(),
        peer_passwords: vec![],
        args: vec![],
    };
    let err = inv.peer_password(0).unwrap_err();
    assert!(err.contains("line 2 of stdin"), "{err}");
}

#[test]
fn an_invocation_takes_its_passwords_from_the_input() {
    let inv = Invocation::new(accepted("smoke --account A --password-stdin"), "own\npeer\n");
    assert_eq!(inv.account, "A");
    assert_eq!(inv.password, "own");
    assert_eq!(inv.peer_password(0).unwrap(), "peer");
    assert!(inv.peer_password(1).is_err());
}

#[test]
fn class_and_race_names_round_trip() {
    assert_eq!(parse_class("Mage").unwrap(), Class::Mage);
    assert_eq!(parse_race("NightElf").unwrap(), Race::NightElf);
    assert!(parse_class("deathknight").is_err());
}

#[test]
fn the_first_endpoints_stay_and_the_default_is_local() {
    let mut slot = None;
    assert_eq!(
        cli::endpoints(&slot).logon_addr,
        format!("{DEFAULT_HOST}:{DEFAULT_LOGON_PORT}")
    );
    cli::set_endpoints(&mut slot, Endpoints::new("a", 1, None));
    cli::set_endpoints(&mut slot, Endpoints::new("b", 2, Some(3)));
    assert_eq!(cli::endpoints(&slot).logon_addr, "a:1");
    assert_eq!(cli::endpoints(&slot).world_addr_override, None);
}

#[test]
fn help_and_unreadable_ports_stop_the_run() {
    assert!(matches!(parse_args(&argv("--help")), Err(ArgsStop::Help)));
    assert!(matches!(parse_args(&argv("smoke -h")), Err(ArgsStop::Help)));
    assert_eq!(
        refused("smoke --logon-port x --account A --password-stdin"),
        "invalid digit found in string"
    );
    assert_eq!(
        refused("smoke --world-port 99999x --account A --password-stdin"),
        "number too large to fit in target type"
    );
    assert!(refused("smoke --class x\"y --account A --password-stdin")
        .starts_with("unknown --class \"x\\\"y\" (warrior|"));
    assert!(refused("dance --account A --password-stdin").starts_with("unknown command \"dance\" "));
}

#[test]
fn behind_a_bare_double_dash_even_a_call_for_help_is_an_argument() {
    let p = accepted("scenario echo --account A --password-stdin -- -h --help --host x");
    assert!(matches!(p.command, Command::Scenario(ref name) if name == "echo"));
    assert_eq!(p.args, ["-h", "--help", "--host", "x"]);
    assert_eq!(p.endpoints.logon_addr, "127.0.0.1:3724");
}

#[test]
fn a_flag_means_the_same_wherever_it_stands() {
    let a = accepted("scenario walk --host h -8968 5 --class mage --account A --password-stdin");
    let b = accepted("scenario walk -8968 5 --class mage --account A --password-stdin --host h");
    assert_eq!(a.endpoints.logon_addr, "h:3724");
    assert_eq!(a.endpoints.logon_addr, b.endpoints.logon_addr);
    assert_eq!((a.args, a.class, a.account), (b.args, b.class, b.account));
}

#[test]
fn the_ends_of_lines_do_not_matter_to_passwords() {
    let plain = split_passwords("own\npeer\n\nlast");
    assert_eq!(plain, ("own".to_string(), vec!["peer".to_string(), "".into(), "last".into()]));
    assert_eq!(split_passwords("own\npeer\n\nlast\n"), plain);
    assert_eq!(split_passwords("own\r\npeer\r\n\r\nlast"), plain);
}

#[test]
fn an_unknown_mode_casts_what_it_names_and_no_mode_smokes() {
    assert!(matches!(modes::plan_of(&None), Plan::Smoke));
    assert!(matches!(modes::plan_of(&Some("no-such-mode".to_string())), Plan::Unknown));
    assert!(matches!(modes::plan_of(&Some("133".to_string())), Plan::Cast(133)));
}

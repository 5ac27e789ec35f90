use zappy::config::{parse_args, parse_next_value, parse_team_names, validate_config, Config, ParseOutcome};

fn args(text: &str) -> Vec<String> {
    text.split_whitespace().map(|word| word.to_string()).collect()
}

fn config_of(text: &str) -> Config {
    match parse_args(&args(text)) {
        Ok(ParseOutcome::Config(config)) => config,
        Ok(ParseOutcome::Help) => panic!("help asked"),
        Err(error) => panic!("{error}"),
    }
}

fn error_of(text: &str) -> String {
    match parse_args(&args(text)) {
        Err(error) => error,
        Ok(_) => panic!("accepted"),
    }
}

#[test]
fn parses_the_documented_command_line() {
    let config = config_of("./zappy_server -p 4242 -x 10 -y 10 -n team1 team2 -c 3 -f 100");
    assert_eq!(config.port, 4242);
    assert_eq!(config.width, 10);
    assert_eq!(config.height, 10);
    assert_eq!(config.teams, vec!["team1".to_string(), "team2".to_string()]);
    assert_eq!(config.clients_nb, 3);
    assert_eq!(config.freq, 100);
}

#[test]
fn flags_may_come_in_any_order_and_teams_accumulate() {
    let config = config_of("server -f 2 -n a -c 1 -y 3 -n b c -x 4 -p +7");
    assert_eq!(config.port, 7);
    assert_eq!(config.width, 4);
    assert_eq!(config.height, 3);
    assert_eq!(config.teams, vec!["a".to_string(), "b".to_string(), "c".to_string()]);
    assert_eq!(config.freq, 2);
}

#[test]
fn help_wins_over_everything() {
    assert!(matches!(parse_args(&args("server -p x --help")), Ok(ParseOutcome::Help)));
}

#[test]
fn reports_each_error() {
    assert_eq!(error_of("server -p"), "Missing value for -p");
    assert_eq!(error_of("server -p 70000"), "Invalid value for -p");
    assert_eq!(error_of("server -x -3"), "Invalid value for -x");
    assert_eq!(error_of("server -z 1"), "Unknown argument: -z");
    assert_eq!(error_of("server -x 1 -y 1 -n a -c 1 -f 1"), "Missing -p port");
    assert_eq!(error_of("server -p 1 -y 1 -n a -c 1 -f 1"), "Missing -x width");
    assert_eq!(error_of("server -p 1 -x 1 -n a -c 1 -f 1"), "Missing -y height");
    assert_eq!(error_of("server -p 1 -x 1 -y 1 -n a -f 1"), "Missing -c clientsNb");
    assert_eq!(error_of("server -p 1 -x 1 -y 1 -n a -c 1"), "Missing -f freq");
    assert_eq!(error_of("server -p 0 -x 1 -y 1 -n a -c 1 -f 1"), "Port must be greater than 0");
    assert_eq!(error_of("server -p 1 -x 0 -y 1 -n a -c 1 -f 1"), "Width must be greater than 0");
    assert_eq!(error_of("server -p 1 -x 1 -y 0 -n a -c 1 -f 1"), "Height must be greater than 0");
    assert_eq!(error_of("server -p 1 -x 1 -y 1 -c 1 -f 1"), "Missing teams after -n");
    assert_eq!(error_of("server -p 1 -x 1 -y 1 -n a -c 0 -f 1"), "clientsNb must be greater than 0");
    assert_eq!(error_of("server -p 1 -x 1 -y 1 -n a -c 1 -f 0"), "freq must be greater than 0");
}

#[test]
fn reads_a_flag_value() {
    let line = args("-p 4242 -x");
    assert_eq!(parse_next_value(&line, 1, "-p", 65535), Ok(4242));
    assert_eq!(parse_next_value(&line, 2, "-p", 65535), Err("Invalid value for -p".to_string()));
    assert_eq!(parse_next_value(&line, 3, "-x", 100), Err("Missing value for -x".to_string()));
}

#[test]
fn team_names_stop_at_the_next_flag() {
    let line = args("-n team1 team2 -c 3");
    let mut teams = vec!["first".to_string()];
    let end = parse_team_names(&line, 1, &mut teams);
    assert_eq!(end, 3);
    assert_eq!(teams, vec!["first".to_string(), "team1".to_string(), "team2".to_string()]);
    let end = parse_team_names(&line, 4, &mut teams);
    assert_eq!(end, 5);
    assert_eq!(teams.len(), 4);
}

#[test]
fn validates_a_configuration() {
    let mut config = config_of("s -p 1 -x 1 -y 1 -n a -c 1 -f 1");
    assert_eq!(validate_config(&config), Ok(()));
    config.freq = 0;
    assert_eq!(validate_config(&config), Err("freq must be greater than 0".to_string()));
}

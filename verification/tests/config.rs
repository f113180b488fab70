use kwbot::config::{parse_config, render_config, Config};

fn sample() -> String {
    let mut s = String::new();
    s.push_str("# bot settings\n");
    s.push_str("discord_token = \"SECRET-REDACTED\"\n");
    s.push_str("\n");
    s.push_str("prefix = \"!\"\n");
    s.push_str("db_url = \"postgres://bot:pw@localhost/kwbot\"\n");
    s.push_str("redis_url = \"redis://localhost:6379\"\n");
    s
}

#[test]
fn well_formed_file_is_accepted_bit_for_bit() {
    let c = parse_config(&sample()).expect("well-formed configuration");
    assert_eq!(c.discord_token, "SECRET-REDACTED");
    assert_eq!(c.prefix, "!");
    assert_eq!(c.db_url, "postgres://bot:pw@localhost/kwbot");
    assert_eq!(c.redis_url, "redis://localhost:6379");
}

#[test]
fn render_then_parse_roundtrips() {
    let c = Config {
        discord_token: "token value with spaces = and #".to_string(),
        prefix: "!".to_string(),
        db_url: "postgres://u@h/db".to_string(),
        redis_url: "redis://h:6379".to_string(),
    };
    let text = render_config(&c);
    let back = parse_config(&text).expect("canonical text parses");
    assert_eq!(back.discord_token, c.discord_token);
    assert_eq!(back.prefix, c.prefix);
    assert_eq!(back.db_url, c.db_url);
    assert_eq!(back.redis_url, c.redis_url);
}

#[test]
fn missing_required_key_is_rejected() {
    let text = "discord_token = \"t\"\nprefix = \"!\"\ndb_url = \"d\"\n";
    assert!(parse_config(text).is_none());
}

#[test]
fn repeated_key_is_rejected() {
    let text =
        "discord_token = \"t\"\nprefix = \"!\"\nprefix = \"?\"\ndb_url = \"d\"\nredis_url = \"r\"\n";
    assert!(parse_config(text).is_none());
}

#[test]
fn malformed_line_is_rejected() {
    assert!(parse_config("discord_token\n").is_none());
    assert!(parse_config("discord_token = t\n").is_none());
    assert!(parse_config("discord_token = \"t\n").is_none());
    assert!(parse_config(" = \"v\"\n").is_none());
}

#[test]
fn unknown_keys_are_ignored() {
    let text =
        "discord_token = \"t\"\nlog_level = \"debug\"\nprefix = \"!\"\ndb_url = \"d\"\nredis_url = \"r\"\n";
    let c = parse_config(text).expect("unknown keys do not reject");
    assert_eq!(c.prefix, "!");
}

#[test]
fn comments_blank_lines_and_empty_values() {
    let text =
        "# leading comment\n\ndiscord_token = \"t\"\nprefix = \"\"\n# interleaved\ndb_url = \"d\"\nredis_url = \"r\"\n";
    let c = parse_config(text).expect("comments and blanks are skipped");
    assert_eq!(c.prefix, "");
}

#[test]
fn last_line_may_lack_a_newline() {
    let text = "discord_token = \"t\"\nprefix = \"!\"\ndb_url = \"d\"\nredis_url = \"r\"";
    let c = parse_config(text).expect("no trailing newline needed");
    assert_eq!(c.redis_url, "r");
}

#[test]
fn empty_file_is_rejected() {
    assert!(parse_config("").is_none());
}

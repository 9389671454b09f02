use detamu::commands::Arguments;

fn arguments(values: &[&str]) -> Vec<String> {
    values.iter().map(|value| value.to_string()).collect()
}

#[test]
fn parses_query_options_independently_of_positionals() {
    let arguments = Arguments::parse(arguments(&[
        "db",
        "world",
        "snapshot",
        "--path",
        "src/lib.rs",
        "--limit",
        "5",
    ]))
    .expect("parse arguments");

    assert_eq!(arguments.positionals, ["db", "world", "snapshot"]);
    assert_eq!(arguments.option("path").expect("path"), Some("src/lib.rs"));
    assert_eq!(
        arguments.parse_option::<usize>("limit").expect("limit"),
        Some(5)
    );
}

#[test]
fn rejects_duplicate_single_value_options() {
    let arguments = Arguments::parse(arguments(&["--depth", "2", "--depth", "3"]))
        .expect("parse arguments");

    assert!(arguments.option("depth").is_err());
}

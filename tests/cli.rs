use giddy::cli::{clap, VERSION};

#[test]
fn command_line_shape() {
    let c = clap();
    assert_eq!(c.get_name(), "giddy");
    assert_eq!(c.get_version(), Some(VERSION));
    assert_eq!(c.get_about().map(|a| a.to_string()), Some("Tend your trees".to_string()));
    let subs: Vec<&str> = c.get_subcommands().map(|s| s.get_name()).collect();
    assert_eq!(subs, vec!["add", "del", "new", "show", "update"]);
    let verbose = c.get_arguments().find(|a| a.get_id() == "verbose").unwrap();
    assert_eq!(verbose.get_short(), Some('v'));
    assert_eq!(verbose.get_long(), Some("verbose"));
    assert!(verbose.is_global_set());
    assert_eq!(
        verbose.get_help().map(|h| h.to_string()),
        Some("be verbose (e.g., show command lines)".to_string())
    );
    assert_eq!(c.get_author(), Some("Kaspar Schleiser <kaspar@schleiser.de>"));
}

#[test]
fn command_line_parses() {
    let m = clap().try_get_matches_from(["giddy", "-vv", "add", "x", "y"]).unwrap();
    assert_eq!(m.get_count("verbose"), 2);
    let (name, sub) = m.subcommand().unwrap();
    assert_eq!(name, "add");
    let deps: Vec<&String> = sub.get_many("dependency").unwrap().collect();
    assert_eq!(deps, vec!["x", "y"]);
    assert!(clap().try_get_matches_from(["giddy", "add"]).is_err());
    let m = clap().try_get_matches_from(["giddy", "upd", "-r"]).unwrap();
    let (name, sub) = m.subcommand().unwrap();
    assert_eq!(name, "update");
    assert!(sub.get_flag("recursive"));
    let m = clap().try_get_matches_from(["giddy", "show", "--tree"]).unwrap();
    assert!(m.subcommand_matches("show").unwrap().get_flag("tree"));
    let m = clap().try_get_matches_from(["giddy", "new", "topic"]).unwrap();
    let n: &String = m.subcommand_matches("new").unwrap().get_one("name").unwrap();
    assert_eq!(n, "topic");
}

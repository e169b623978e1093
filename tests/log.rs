use giddy::log::base_from_log;

fn s(x: &str) -> String {
    x.to_string()
}

#[test]
fn first_other_local_branch_wins() {
    let lines = vec![
        s("aaa refs/heads/feature, refs/remotes/origin/feature"),
        s("bbb HEAD -> refs/heads/x, refs/heads/base, tag: refs/tags/v1"),
        s("ccc refs/heads/older"),
    ];
    assert_eq!(base_from_log(&s("feature"), &s("main"), &lines), "base");
}

#[test]
fn no_other_branch_gives_default() {
    let lines = vec![s("aaa refs/heads/feature"), s("bbb"), s("ccc tag: refs/tags/v1"), s("")];
    assert_eq!(base_from_log(&s("feature"), &s("main"), &lines), "main");
    assert_eq!(base_from_log(&s("feature"), &s("main"), &Vec::new()), "main");
}

#[test]
fn branch_names_with_slashes_and_trailing_pieces() {
    let lines = vec![s("aaa refs/remotes/o/x, refs/heads/team/topic")];
    assert_eq!(base_from_log(&s("feature"), &s("main"), &lines), "team/topic");
    let lines = vec![s("aaa refs/heads/")];
    assert_eq!(base_from_log(&s("feature"), &s("main"), &lines), "");
}

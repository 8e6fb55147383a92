use marmita::naming::{deduce_filename, looks_like_oid, short, usage_str};

#[test]
fn deduce_from_path_url() {
    assert_eq!(deduce_filename("ssh://ijanc@ijanc.org/json/jackson"), "jackson.rs");
}

#[test]
fn deduce_strips_git_suffix() {
    assert_eq!(deduce_filename("https://github.com/user/repo.git"), "repo.rs");
}

#[test]
fn deduce_from_scp_url() {
    assert_eq!(deduce_filename("git@host:name.git"), "name.rs");
    assert_eq!(deduce_filename("host:dir"), "dir.rs");
}

#[test]
fn deduce_without_separator() {
    assert_eq!(deduce_filename("repo"), "repo.rs");
    assert_eq!(deduce_filename(""), ".rs");
}

#[test]
fn deduce_trailing_slash_is_empty_stem() {
    assert_eq!(deduce_filename("https://x/y/"), ".rs");
    assert_eq!(deduce_filename("a/.git"), ".rs");
    assert_eq!(deduce_filename("a/git"), "git.rs");
}

#[test]
fn oid_lengths() {
    assert!(!looks_like_oid("a4e84f"));
    assert!(looks_like_oid("a4e84f6"));
    assert!(looks_like_oid("a4e84f6d2f21d8a5f28d17a38ed9968251325714"));
    assert!(!looks_like_oid("a4e84f6d2f21d8a5f28d17a38ed99682513257140"));
}

#[test]
fn oid_needs_hex() {
    assert!(!looks_like_oid("v1.3.0"));
    assert!(!looks_like_oid("main"));
    assert!(looks_like_oid("ABCDEF0123"));
    assert!(!looks_like_oid("abcdefg123"));
    assert!(!looks_like_oid("ééééééé"));
}

#[test]
fn short_takes_twelve() {
    assert_eq!(short("a4e84f6d2f21d8a5f28d17a38ed9968251325714"), "a4e84f6d2f21");
    assert_eq!(short("abc"), "abc");
    assert_eq!(short(""), "");
}

#[test]
fn usage_lists_commands() {
    assert_eq!(
        usage_str(),
        "usage: marmita add [-r ref] <url> [file]\n       marmita update [file]\n       marmita rm <file>\n       marmita list\n       marmita -V"
    );
}

use marmita::git::{
    blob_revspec, check_blob_type, choose_credential, commit_revspec, oid_text_len,
    ssh_key_candidates, tempdir_name, CredentialChoice,
};

#[test]
fn credential_username_first() {
    assert!(matches!(choose_credential(32 | 2, 0, 2), (CredentialChoice::Username, 0)));
}

#[test]
fn credential_passthrough_without_ssh() {
    assert!(matches!(choose_credential(1, 3, 2), (CredentialChoice::Passthrough, 3)));
}

#[test]
fn credential_sequence_agent_then_keys() {
    let mut attempt = 0;
    let mut seen = Vec::new();
    for _ in 0..5 {
        let (c, next) = choose_credential(2, attempt, 2);
        seen.push(match c {
            CredentialChoice::SshAgent => "agent".to_string(),
            CredentialChoice::SshKeyFile(i) => format!("key{}", i),
            CredentialChoice::Exhausted => "none".to_string(),
            _ => "other".to_string(),
        });
        assert_eq!(next, attempt + 1);
        attempt = next;
    }
    assert_eq!(seen, vec!["agent", "key0", "key1", "none", "none"]);
}

#[test]
fn oid_text_length() {
    let mut buf = [b'a'; 41];
    buf[40] = 0;
    assert_eq!(oid_text_len(&buf), 40);
    buf[7] = 0;
    assert_eq!(oid_text_len(&buf), 7);
    assert_eq!(oid_text_len(&[b'a'; 41]), 40);
}

#[test]
fn revspecs() {
    assert_eq!(commit_revspec("HEAD"), "HEAD^{commit}");
    assert_eq!(blob_revspec("abc", "src/x.rs"), "abc:src/x.rs");
}

#[test]
fn blob_type_check() {
    assert!(check_blob_type(3, "f.rs", "abc").is_ok());
    assert_eq!(
        check_blob_type(2, "f.rs", "abc").unwrap_err(),
        "f.rs is not a regular file at abc"
    );
}

#[test]
fn tempdir_names() {
    assert_eq!(tempdir_name(1234, 0), "marmita.1234.0");
    assert_eq!(tempdir_name(7, 999999999), "marmita.7.999999999");
}

#[test]
fn ssh_keys_in_order() {
    assert_eq!(
        ssh_key_candidates("/home/u"),
        vec!["/home/u/.ssh/id_ed25519", "/home/u/.ssh/id_rsa", "/home/u/.ssh/id_ecdsa"]
    );
}

#[test]
fn credential_counter_only_moves_for_keys() {
    assert!(matches!(choose_credential(32, i32::MAX, 0), (CredentialChoice::Username, i32::MAX)));
    assert!(matches!(choose_credential(0, i32::MIN, 0), (CredentialChoice::Passthrough, i32::MIN)));
    assert!(matches!(choose_credential(2, -5, 3), (CredentialChoice::Exhausted, -4)));
}

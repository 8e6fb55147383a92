//! The decisions marmita takes around libgit2: which credential to offer,
//! which revisions to ask for, and how to read its answers.
use vstd::prelude::*;

use crate::text::{decimal, push_decimal};

verus! {

/// libgit2 may accept a user name (`GIT_CREDENTIAL_USERNAME`).
pub open spec fn allows_username(allowed_types: u32) -> bool {
    allowed_types & 32u32 != 0
}

/// libgit2 may accept an SSH key (`GIT_CREDENTIAL_SSH_KEY`).
pub open spec fn allows_ssh_key(allowed_types: u32) -> bool {
    allowed_types & 2u32 != 0
}

/// The credential offered when libgit2 asks for one.
#[derive(Debug)]
pub enum CredentialChoice {
    /// The user name of the URL.
    Username,
    /// None of ours: let libgit2 go on without (`GIT_PASSTHROUGH`).
    Passthrough,
    /// A key from the SSH agent.
    SshAgent,
    /// The key file with this index among the user's keys.
    SshKeyFile(usize),
    /// No key is left to try: fail.
    Exhausted,
}

/// The credential to offer at the `attempt`-th request for an SSH key (0 for the
/// first), where the user has `key_count` key files; and the count of requests
/// for a key after this one. A user name comes first where one is accepted; then
/// the agent, then each key file in turn. The count is read, and moved on, only
/// when an SSH key is asked for (`as` takes `attempt - 1` to an index, so a
/// negative count names no key file).
pub fn choose_credential(allowed_types: u32, attempt: i32, key_count: usize) -> (r: (
    CredentialChoice,
    i32,
))
    requires
        !allows_username(allowed_types) && allows_ssh_key(allowed_types) ==> i32::MIN < attempt
            < i32::MAX,
    ensures
        allows_username(allowed_types) ==> r.0 is Username && r.1 == attempt,
        !allows_username(allowed_types) && !allows_ssh_key(allowed_types) ==> r.0 is Passthrough
            && r.1 == attempt,
        !allows_username(allowed_types) && allows_ssh_key(allowed_types) ==> r.1 == attempt + 1
            && if attempt == 0 {
            r.0 is SshAgent
        } else if ((attempt - 1) as i32 as usize) < key_count {
            r.0 == CredentialChoice::SshKeyFile((attempt - 1) as i32 as usize)
        } else {
            r.0 is Exhausted
        },
{
    if allowed_types & 32u32 != 0 {
        return (CredentialChoice::Username, attempt);
    }
    if allowed_types & 2u32 == 0 {
        return (CredentialChoice::Passthrough, attempt);
    }
    let next = attempt + 1;
    if attempt == 0 {
        return (CredentialChoice::SshAgent, next);
    }
    let idx = (attempt - 1) as usize;
    if idx >= key_count {
        return (CredentialChoice::Exhausted, next);
    }
    (CredentialChoice::SshKeyFile(idx), next)
}

/// The SSH key files offered, in order, for a home directory: the Ed25519, RSA
/// and ECDSA keys under `.ssh` (those that exist are offered).
pub fn ssh_key_candidates(home: &str) -> (r: Vec<String>)
    ensures
        r@.len() == 3,
        r@[0]@ == home@ + "/.ssh/"@ + "id_ed25519"@,
        r@[1]@ == home@ + "/.ssh/"@ + "id_rsa"@,
        r@[2]@ == home@ + "/.ssh/"@ + "id_ecdsa"@,
{
    let mut r: Vec<String> = Vec::new();
    let mut a = String::new();
    a.append(home);
    a.append("/.ssh/");
    a.append("id_ed25519");
    r.push(a);
    let mut b = String::new();
    b.append(home);
    b.append("/.ssh/");
    b.append("id_rsa");
    r.push(b);
    let mut c = String::new();
    c.append(home);
    c.append("/.ssh/");
    c.append("id_ecdsa");
    r.push(c);
    r
}

/// The length of the text in a NUL-terminated buffer: the index of the first
/// NUL byte, or 40 (the length of a hexadecimal object id) where there is none.
pub fn oid_text_len(buf: &[u8]) -> (n: usize)
    ensures
        (exists|i: int| 0 <= i < buf@.len() && buf@[i] == 0) ==> n < buf@.len() && buf@[n as int]
            == 0 && forall|j: int| 0 <= j < n ==> buf@[j] != 0,
        (forall|i: int| 0 <= i < buf@.len() ==> buf@[i] != 0) ==> n == 40,
{
    let mut i: usize = 0;
    while i < buf.len()
        invariant
            i <= buf@.len(),
            forall|j: int| 0 <= j < i ==> buf@[j] != 0,
        decreases buf@.len() - i,
    {
        if buf[i] == 0 {
            return i;
        }
        i = i + 1;
    }
    40
}

/// The revision that names the commit `spec` resolves to: `<spec>^{commit}`.
pub fn commit_revspec(spec: &str) -> (r: String)
    ensures
        r@ == spec@ + "^{commit}"@,
{
    let mut r = String::new();
    r.append(spec);
    r.append("^{commit}");
    r
}

/// The revision that names `file` in `commit`: `<commit>:<file>`.
pub fn blob_revspec(commit: &str, file: &str) -> (r: String)
    ensures
        r@ == commit@ + ":"@ + file@,
{
    let mut r = String::new();
    r.append(commit);
    r.append(":");
    r.append(file);
    r
}

/// The object type libgit2 gives a blob (`GIT_OBJECT_BLOB`).
pub open spec fn object_blob() -> i32 {
    3
}

/// Only a blob (a regular file) can be vendored.
pub fn check_blob_type(object_type: i32, file: &str, commit: &str) -> (r: Result<(), String>)
    ensures
        object_type == object_blob() ==> r is Ok,
        object_type != object_blob() ==> (r matches Err(m) && m@ == file@
            + " is not a regular file at "@ + commit@),
{
    if object_type != 3 {
        let mut m = String::new();
        m.append(file);
        m.append(" is not a regular file at ");
        m.append(commit);
        return Err(m);
    }
    Ok(())
}

/// The name of the scratch directory for one fetch: `marmita.<pid>.<nanos>`.
pub fn tempdir_name(pid: u32, nanos: u32) -> (r: String)
    ensures
        r@ == "marmita."@ + decimal(pid as nat) + "."@ + decimal(nanos as nat),
{
    let mut r = String::new();
    r.append("marmita.");
    push_decimal(&mut r, pid as u64);
    r.append(".");
    push_decimal(&mut r, nanos as u64);
    r
}

} // verus!

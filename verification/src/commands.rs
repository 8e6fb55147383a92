//! The decisions of marmita's commands: what the arguments ask for, what
//! becomes of the manifest, and what is reported.
use vstd::prelude::*;

use crate::manifest::{entries_view, opt_view, Entry, SpecEntry};
use crate::order::with_file;
use crate::naming::{
    can_shorten, deduce_filename, deduced_filename, is_oid_like, looks_like_oid, short, short_text,
    usage_str, usage_text,
};
use crate::text::str_is;

verus! {

/// The texts of a list of strings.
pub open spec fn strings_view(v: Seq<String>) -> Seq<Seq<char>> {
    v.map_values(|s: String| s@)
}

/// What the command line asks for.
#[derive(Debug)]
pub enum Command {
    /// Too few arguments: show how marmita is used.
    Usage,
    /// `-V`: show the version.
    Version,
    /// `add`, with the arguments that follow it.
    Add(Vec<String>),
    /// `update`, with the arguments that follow it.
    Update(Vec<String>),
    /// `rm`, with the arguments that follow it.
    Rm(Vec<String>),
    /// `list`, with the arguments that follow it.
    List(Vec<String>),
    /// Any other command, by its name.
    Unknown(String),
}

fn strings_from(args: &[String], from: usize) -> (r: Vec<String>)
    requires
        from <= args@.len(),
    ensures
        strings_view(r@) == strings_view(args@.skip(from as int)),
{
    let mut r: Vec<String> = Vec::new();
    let mut i = from;
    while i < args.len()
        invariant
            from <= i <= args@.len(),
            strings_view(r@) == strings_view(args@.subrange(from as int, i as int)),
        decreases args@.len() - i,
    {
        r.push(args[i].clone());
        assert(strings_view(args@.subrange(from as int, i + 1)) =~= strings_view(
            args@.subrange(from as int, i as int),
        ).push(args@[i as int]@));
        assert(strings_view(r@) =~= strings_view(args@.subrange(from as int, i as int)).push(
            args@[i as int]@,
        ));
        i = i + 1;
    }
    assert(args@.subrange(from as int, args@.len() as int) =~= args@.skip(from as int));
    r
}

/// The command that the arguments (the program's name first) ask for.
pub fn parse_command(args: &[String]) -> (c: Command)
    ensures
        match c {
            Command::Usage => args@.len() < 2,
            Command::Version => args@.len() >= 2 && args@[1]@ == "-V"@,
            Command::Add(rest) => args@.len() >= 2 && args@[1]@ != "-V"@ && args@[1]@ == "add"@
                && strings_view(rest@) == strings_view(args@.skip(2)),
            Command::Update(rest) => args@.len() >= 2 && args@[1]@ != "-V"@ && args@[1]@
                == "update"@ && strings_view(rest@) == strings_view(args@.skip(2)),
            Command::Rm(rest) => args@.len() >= 2 && args@[1]@ != "-V"@ && args@[1]@ == "rm"@
                && strings_view(rest@) == strings_view(args@.skip(2)),
            Command::List(rest) => args@.len() >= 2 && args@[1]@ != "-V"@ && args@[1]@ == "list"@
                && strings_view(rest@) == strings_view(args@.skip(2)),
            Command::Unknown(name) => args@.len() >= 2 && name@ == args@[1]@ && args@[1]@ != "-V"@
                && args@[1]@ != "add"@ && args@[1]@ != "update"@ && args@[1]@ != "rm"@ && args@[1]@
                != "list"@,
        },
{
    if args.len() < 2 {
        return Command::Usage;
    }
    let name = args[1].as_str();
    if str_is(name, "-V") {
        Command::Version
    } else if str_is(name, "add") {
        Command::Add(strings_from(args, 2))
    } else if str_is(name, "update") {
        Command::Update(strings_from(args, 2))
    } else if str_is(name, "rm") {
        Command::Rm(strings_from(args, 2))
    } else if str_is(name, "list") {
        Command::List(strings_from(args, 2))
    } else {
        Command::Unknown(args[1].clone())
    }
}

/// The message for a command that marmita does not know.
pub fn unknown_command_message(name: &str) -> (m: String)
    ensures
        m@ == "unknown command '"@ + name@ + "'\n"@ + usage_text(),
{
    let mut m = String::new();
    m.append("unknown command '");
    m.append(name);
    m.append("'\n");
    m.append(usage_str());
    m
}

/// What `marmita add` was asked to vendor.
#[derive(Debug)]
pub struct AddRequest {
    /// The repository.
    pub url: String,
    /// The reference given with `-r`, if any.
    pub reference: Option<String>,
    /// The file to vendor, named or deduced from the URL.
    pub file: String,
    /// What to resolve to a commit: the reference, or `HEAD`.
    pub revision: String,
}

/// Reads `add`'s arguments from the `i`-th on: `-r` takes the next argument as
/// the reference, the first other argument is the URL and the second the file.
pub open spec fn scan_add_args(
    args: Seq<Seq<char>>,
    i: int,
    url: Option<Seq<char>>,
    reference: Option<Seq<char>>,
    file: Option<Seq<char>>,
) -> Result<(Option<Seq<char>>, Option<Seq<char>>, Option<Seq<char>>), Seq<char>>
    decreases args.len() - i,
{
    if i < 0 || i >= args.len() {
        Ok((url, reference, file))
    } else if args[i] == "-r"@ {
        if i + 1 >= args.len() {
            Err("-r requires an argument"@)
        } else {
            scan_add_args(args, i + 2, url, Some(args[i + 1]), file)
        }
    } else if url is None {
        scan_add_args(args, i + 1, Some(args[i]), reference, file)
    } else if file is None {
        scan_add_args(args, i + 1, url, reference, Some(args[i]))
    } else {
        Err(usage_text())
    }
}

/// What `add`'s arguments ask for, as (url, reference, file, revision), or the
/// message that refuses them.
pub open spec fn spec_add_request(args: Seq<Seq<char>>) -> Result<
    (Seq<char>, Option<Seq<char>>, Seq<char>, Seq<char>),
    Seq<char>,
> {
    match scan_add_args(args, 0, None, None, None) {
        Err(m) => Err(m),
        Ok((None, _, _)) => Err(usage_text()),
        Ok((Some(url), reference, file)) => Ok(
            (
                url,
                reference,
                match file {
                    Some(f) => f,
                    None => deduced_filename(url),
                },
                match reference {
                    Some(r) => r,
                    None => "HEAD"@,
                },
            ),
        ),
    }
}

/// The revision that `marmita add` fetches is the reference given with `-r`,
/// or `HEAD` where none is given, whether or not a file is named.
pub proof fn lemma_add_revision(args: Seq<Seq<char>>)
    ensures
        spec_add_request(args) matches Ok((url, reference, file, revision)) ==> revision
            == match reference {
            Some(r) => r,
            None => "HEAD"@,
        },
{
}

proof fn lemma_scan_keeps_reference(
    args: Seq<Seq<char>>,
    i: int,
    url: Option<Seq<char>>,
    reference: Option<Seq<char>>,
    file: Option<Seq<char>>,
)
    requires
        0 <= i,
        forall|j: int| i <= j < args.len() ==> args[j] != "-r"@,
    ensures
        scan_add_args(args, i, url, reference, file) matches Ok((_, r, _)) ==> r == reference,
    decreases args.len() - i,
{
    if i < args.len() {
        if url is None {
            lemma_scan_keeps_reference(args, i + 1, Some(args[i]), reference, file);
        } else if file is None {
            lemma_scan_keeps_reference(args, i + 1, url, reference, Some(args[i]));
        }
    }
}

/// `marmita add -r <ref> ...`: where no other `-r` follows, the reference is
/// `<ref>` and the file is fetched at it.
pub proof fn lemma_add_pins_reference(args: Seq<Seq<char>>)
    requires
        args.len() >= 2,
        args[0] == "-r"@,
        forall|j: int| 2 <= j < args.len() ==> args[j] != "-r"@,
    ensures
        spec_add_request(args) matches Ok((url, reference, file, revision)) ==> reference == Some(
            args[1],
        ) && revision == args[1],
{
    lemma_scan_keeps_reference(args, 2, None, Some(args[1]), None);
}

/// Reads the arguments of `marmita add [-r ref] <url> [file]`.
pub fn parse_add_args(args: &[String]) -> (r: Result<AddRequest, String>)
    ensures
        match spec_add_request(strings_view(args@)) {
            Ok((url, reference, file, revision)) => r matches Ok(q) && q.url@ == url && opt_view(
                q.reference,
            ) == reference && q.file@ == file && q.revision@ == revision,
            Err(m) => r matches Err(e) && e@ == m,
        },
{
    let ghost sv = strings_view(args@);
    let mut url: Option<String> = None;
    let mut reference: Option<String> = None;
    let mut file_arg: Option<String> = None;
    let mut i: usize = 0;
    while i < args.len()
        invariant
            i <= args@.len(),
            sv == strings_view(args@),
            scan_add_args(sv, 0, None, None, None) == scan_add_args(
                sv,
                i as int,
                opt_view(url),
                opt_view(reference),
                opt_view(file_arg),
            ),
        decreases args@.len() - i,
    {
        assert(sv[i as int] == args@[i as int]@);
        if str_is(args[i].as_str(), "-r") {
            i = i + 1;
            if i >= args.len() {
                let mut m = String::new();
                m.append("-r requires an argument");
                return Err(m);
            }
            assert(sv[i as int] == args@[i as int]@);
            reference = Some(args[i].clone());
        } else if url.is_none() {
            url = Some(args[i].clone());
        } else if file_arg.is_none() {
            file_arg = Some(args[i].clone());
        } else {
            let mut m = String::new();
            m.append(usage_str());
            return Err(m);
        }
        i = i + 1;
    }
    let url = match url {
        Some(u) => u,
        None => {
            let mut m = String::new();
            m.append(usage_str());
            return Err(m);
        },
    };
    let file = match file_arg {
        Some(f) => f,
        None => deduce_filename(url.as_str()),
    };
    let revision = match &reference {
        Some(r) => r.clone(),
        None => {
            let mut h = String::new();
            h.append("HEAD");
            h
        },
    };
    Ok(AddRequest { url, reference, file, revision })
}

/// Dropping the entries of file `g` leaves none of `g` and keeps those of any
/// other file, in their order.
pub proof fn lemma_with_file_without_file(es: Seq<SpecEntry>, f: Seq<char>, g: Seq<char>)
    ensures
        with_file(without_file(es, g), f) == if f == g {
            Seq::<SpecEntry>::empty()
        } else {
            with_file(es, f)
        },
    decreases es.len(),
{
    reveal(Seq::filter);
    if es.len() > 0 {
        lemma_with_file_without_file(es.drop_last(), f, g);
        let x = es.last();
        assert(es =~= es.drop_last().push(x));
        lemma_without_file_push(es.drop_last(), x, g);
        let w = without_file(es.drop_last(), g);
        if x.file != g {
            assert(w.push(x).drop_last() =~= w);
        }
    } else {
        assert(with_file(without_file(es, g), f) =~= Seq::<SpecEntry>::empty());
    }
}

/// After `marmita add` records a file, the manifest holds exactly one entry for
/// it, the new one, and the entries of every other file as they were.
pub proof fn lemma_added_entry_unique(es: Seq<SpecEntry>, added: SpecEntry, f: Seq<char>)
    ensures
        with_file(without_file(es, added.file).push(added), added.file) == seq![added],
        f != added.file ==> with_file(without_file(es, added.file).push(added), f) == with_file(
            es,
            f,
        ),
{
    let w = without_file(es, added.file);
    reveal(Seq::filter);
    assert(w.push(added).drop_last() =~= w);
    lemma_with_file_without_file(es, added.file, added.file);
    lemma_with_file_without_file(es, f, added.file);
    assert(Seq::<SpecEntry>::empty().push(added) =~= seq![added]);
}

/// After `marmita rm`, no entry of the file is left, and the entries of every
/// other file are as they were.
pub proof fn lemma_removed_file_gone(es: Seq<SpecEntry>, removed: Seq<char>, f: Seq<char>)
    ensures
        with_file(without_file(es, removed), removed) == Seq::<SpecEntry>::empty(),
        f != removed ==> with_file(without_file(es, removed), f) == with_file(es, f),
{
    lemma_with_file_without_file(es, removed, removed);
    lemma_with_file_without_file(es, f, removed);
}

/// The entries whose file is not `f`, in their order.
pub open spec fn without_file(es: Seq<SpecEntry>, f: Seq<char>) -> Seq<SpecEntry> {
    es.filter(|e: SpecEntry| e.file != f)
}

proof fn lemma_without_file_push(es: Seq<SpecEntry>, x: SpecEntry, f: Seq<char>)
    ensures
        without_file(es.push(x), f) == if x.file != f {
            without_file(es, f).push(x)
        } else {
            without_file(es, f)
        },
{
    reveal(Seq::filter);
    assert(es.push(x).drop_last() =~= es);
}

/// The entries without those for `file`, moved out of `entries`.
fn drop_file(entries: Vec<Entry>, file: &str) -> (r: Vec<Entry>)
    ensures
        entries_view(r@) == without_file(entries_view(entries@), file@),
{
    let mut entries = entries;
    let ghost orig = entries@;
    let mut kept: Vec<Entry> = Vec::new();
    let mut taken: usize = 0;
    let total = entries.len();
    let ghost n = orig.len();
    assert(entries@ =~= orig.skip(0));
    assert(entries_view(orig.take(0)) =~= Seq::<SpecEntry>::empty());
    reveal(Seq::filter);
    assert(without_file(Seq::<SpecEntry>::empty(), file@) =~= Seq::<SpecEntry>::empty());
    while entries.len() > 0
        invariant
            n == orig.len(),
            n == total,
            taken <= n,
            entries@ == orig.skip(taken as int),
            entries_view(kept@) == without_file(entries_view(orig.take(taken as int)), file@),
        decreases n - taken,
    {
        let e = entries.remove(0);
        proof {
            assert(e == orig[taken as int]);
            assert(entries@ =~= orig.skip(taken + 1));
            assert(entries_view(orig.take(taken + 1)) =~= entries_view(orig.take(taken as int)).push(
                e@,
            ));
            lemma_without_file_push(entries_view(orig.take(taken as int)), e@, file@);
        }
        if !str_is(e.file.as_str(), file) {
            let ghost before = kept@;
            kept.push(e);
            assert(entries_view(kept@) =~= entries_view(before).push(e@));
        }
        taken = taken + 1;
    }
    assert(orig.take(n as int) =~= orig);
    kept
}

/// The reference that the manifest keeps for an added file: the one given,
/// unless it looks like a commit id (the commit field already pins it).
pub open spec fn stored_reference(reference: Option<Seq<char>>) -> Option<Seq<char>> {
    match reference {
        Some(r) => if is_oid_like(r) {
            None
        } else {
            Some(r)
        },
        None => None,
    }
}

/// `marmita add` keeps the reference given unless it looks like a commit id:
/// a reference shorter than 7 or longer than 40 characters, or with a
/// character that is not a hexadecimal digit, is recorded as given; a run of 7
/// to 40 hexadecimal digits is dropped (the commit already pins it).
pub proof fn lemma_reference_kept(r: Seq<char>)
    ensures
        stored_reference(Some(r)) == if 7 <= r.len() <= 40 && forall|i: int|
            0 <= i < r.len() ==> ('0' <= #[trigger] r[i] <= '9' || 'a' <= r[i] <= 'f' || 'A'
                <= r[i] <= 'F') {
            None
        } else {
            Some(r)
        },
        stored_reference(None) == None::<Seq<char>>,
{
}

/// The manifest after `marmita add`: the entries for other files in their
/// order, then the entry for the added file.
pub fn record_added(
    entries: Vec<Entry>,
    file: String,
    origin: String,
    reference: Option<String>,
    commit: String,
    date: String,
) -> (r: Vec<Entry>)
    ensures
        entries_view(r@) == without_file(entries_view(entries@), file@).push(
            SpecEntry {
                file: file@,
                origin: origin@,
                reference: stored_reference(opt_view(reference)),
                commit: commit@,
                date: date@,
            },
        ),
{
    let mut kept = drop_file(entries, file.as_str());
    let stored = match reference {
        Some(r) => if looks_like_oid(r.as_str()) {
            None
        } else {
            Some(r)
        },
        None => None,
    };
    let ghost before = kept@;
    kept.push(Entry { file, origin, reference: stored, commit, date });
    assert(entries_view(kept@) =~= entries_view(before).push(kept@[kept@.len() - 1]@));
    kept
}

/// What `marmita add` reports: `added <file> (<short commit>)`.
pub fn added_message(file: &str, commit: &str) -> (m: String)
    requires
        can_shorten(commit@),
    ensures
        m@ == "added "@ + file@ + " ("@ + short_text(commit@) + ")"@,
{
    let mut m = String::new();
    m.append("added ");
    m.append(file);
    m.append(" (");
    m.append(short(commit));
    m.append(")");
    m
}

/// The arguments of `marmita update [file]`: the file to update, if one is named.
pub fn update_args(args: &[String]) -> (r: Result<Option<String>, String>)
    ensures
        args@.len() > 1 ==> (r matches Err(m) && m@ == usage_text()),
        args@.len() == 1 ==> (r matches Ok(Some(t)) && t@ == args@[0]@),
        args@.len() == 0 ==> r matches Ok(None),
{
    if args.len() > 1 {
        let mut m = String::new();
        m.append(usage_str());
        return Err(m);
    }
    if args.len() == 1 {
        Ok(Some(args[0].clone()))
    } else {
        Ok(None)
    }
}

/// `marmita update` refuses a manifest without entries.
pub fn require_entries(entries: &[Entry]) -> (r: Result<(), String>)
    ensures
        entries@.len() == 0 ==> (r matches Err(m) && m@ == "vendor/VENDOR: no entries"@),
        entries@.len() > 0 ==> r is Ok,
{
    if entries.len() == 0 {
        let mut m = String::new();
        m.append("vendor/VENDOR: no entries");
        Err(m)
    } else {
        Ok(())
    }
}

/// What `marmita update` does with one entry.
#[derive(Debug)]
pub enum UpdateAction {
    /// Another file was named: leave the entry alone.
    NotSelected,
    /// The entry is pinned to a commit and no file was named: report this and go on.
    SkipPinned(String),
    /// The named file is pinned to a commit: fail with this message.
    Refuse(String),
    /// Fetch the file at this revision (the entry's reference).
    Fetch(String),
}

/// What `marmita update` does with `entry`, where `target` is the file named, if any.
pub fn update_action(entry: &Entry, target: &Option<String>) -> (a: UpdateAction)
    ensures
        match target {
            Some(t) if entry.file@ != t@ => a is NotSelected,
            _ => match entry.reference {
                Some(r) => a matches UpdateAction::Fetch(rev) && rev@ == r@,
                None => match target {
                    Some(t) => a matches UpdateAction::Refuse(m) && m@ == entry.file@
                        + ": pinned to commit, no ref to follow"@,
                    None => a matches UpdateAction::SkipPinned(m) && m@ == "marmita: skip "@
                        + entry.file@ + " (pinned to commit, no ref)"@,
                },
            },
        },
{
    match target {
        Some(t) => {
            if !str_is(entry.file.as_str(), t.as_str()) {
                return UpdateAction::NotSelected;
            }
        },
        None => {},
    }
    match &entry.reference {
        Some(r) => UpdateAction::Fetch(r.clone()),
        None => {
            let mut m = String::new();
            match target {
                Some(_) => {
                    m.append(entry.file.as_str());
                    m.append(": pinned to commit, no ref to follow");
                    UpdateAction::Refuse(m)
                },
                None => {
                    m.append("marmita: skip ");
                    m.append(entry.file.as_str());
                    m.append(" (pinned to commit, no ref)");
                    UpdateAction::SkipPinned(m)
                },
            }
        },
    }
}

/// Records that `entry` was fetched at `commit` on `date`; tells whether the commit changed.
pub fn apply_update(entry: &mut Entry, commit: String, date: String) -> (changed: bool)
    ensures
        changed == (old(entry).commit@ != commit@),
        final(entry)@ == (SpecEntry { commit: commit@, date: date@, ..old(entry)@ }),
{
    let changed = !str_is(entry.commit.as_str(), commit.as_str());
    entry.commit = commit;
    entry.date = date;
    changed
}

/// What `marmita update` reports for a fetched entry.
pub fn update_message(file: &str, commit: &str, changed: bool) -> (m: String)
    requires
        can_shorten(commit@),
    ensures
        changed ==> m@ == "updated "@ + file@ + " -> "@ + short_text(commit@),
        !changed ==> m@ == "up to date "@ + file@ + " ("@ + short_text(commit@) + ")"@,
{
    let mut m = String::new();
    if changed {
        m.append("updated ");
        m.append(file);
        m.append(" -> ");
        m.append(short(commit));
    } else {
        m.append("up to date ");
        m.append(file);
        m.append(" (");
        m.append(short(commit));
        m.append(")");
    }
    m
}

/// After the entries were gone through: a named file that no entry has is an error.
pub fn update_outcome(target: &Option<String>, touched: usize) -> (r: Result<(), String>)
    ensures
        match target {
            Some(t) if touched == 0 => r matches Err(m) && m@ == t@ + ": no such entry"@,
            _ => r is Ok,
        },
{
    match target {
        Some(t) => {
            if touched == 0 {
                let mut m = String::new();
                m.append(t.as_str());
                m.append(": no such entry");
                return Err(m);
            }
        },
        None => {},
    }
    Ok(())
}

/// An entry that `marmita update` goes through: any, or those of the named file.
pub open spec fn is_selected(e: SpecEntry, target: Option<Seq<char>>) -> bool {
    match target {
        Some(t) => e.file == t,
        None => true,
    }
}

/// The index of the first entry from `from` on that update goes through, or
/// the number of entries where there is none.
pub open spec fn first_selected(es: Seq<SpecEntry>, target: Option<Seq<char>>, from: int) -> int
    decreases es.len() - from,
{
    if from < 0 || from >= es.len() {
        es.len() as int
    } else if is_selected(es[from], target) {
        from
    } else {
        first_selected(es, target, from + 1)
    }
}

/// Whether `marmita update` goes through `e`.
fn selects(e: &Entry, target: &Option<String>) -> (b: bool)
    ensures
        b == is_selected(e@, opt_view(*target)),
{
    match target {
        Some(name) => str_is(e.file.as_str(), name.as_str()),
        None => true,
    }
}

/// The next step of `marmita update`.
#[derive(Debug)]
pub enum UpdateStep {
    /// Fetch the file of entry `index` at `revision`.
    Fetch { index: usize, revision: String },
    /// Entry `index` is pinned to a commit: report `message` and go on after it.
    SkipPinned { index: usize, message: String },
    /// Stop with this error; nothing is written.
    Fail(String),
    /// Every entry was gone through: write the manifest.
    Write,
}

/// The next step of `marmita update` from entry `from` on, where `touched`
/// entries were fetched so far and `target` is the file named, if any: the
/// first selected entry is fetched at its reference, or, pinned to a commit,
/// skipped (no file named) or refused (a file named). Past the last entry the
/// manifest is written, unless a file was named and none was fetched.
pub fn next_update_step(entries: &[Entry], target: &Option<String>, from: usize, touched: usize) -> (s: UpdateStep)
    requires
        from <= entries@.len(),
    ensures
        ({
            let es = entries_view(entries@);
            let t = opt_view(*target);
            let k = first_selected(es, t, from as int);
            if k < es.len() {
                match es[k].reference {
                    Some(r) => (s matches UpdateStep::Fetch { index, revision } && index == k
                        && revision@ == r),
                    None => match t {
                        Some(_) => (s matches UpdateStep::Fail(m) && m@ == es[k].file
                            + ": pinned to commit, no ref to follow"@),
                        None => (s matches UpdateStep::SkipPinned { index, message } && index == k
                            && message@ == "marmita: skip "@ + es[k].file
                            + " (pinned to commit, no ref)"@),
                    },
                }
            } else {
                match t {
                    Some(name) => if touched == 0 {
                        (s matches UpdateStep::Fail(m) && m@ == name + ": no such entry"@)
                    } else {
                        s is Write
                    },
                    None => s is Write,
                }
            }
        }),
{
    let ghost es = entries_view(entries@);
    let ghost t = opt_view(*target);
    let mut i = from;
    while i < entries.len() && !selects(&entries[i], target)
        invariant
            from <= i <= entries@.len(),
            es == entries_view(entries@),
            t == opt_view(*target),
            first_selected(es, t, from as int) == first_selected(es, t, i as int),
        decreases entries@.len() - i,
    {
        assert(es[i as int] == entries@[i as int]@);
        i = i + 1;
    }
    if i < entries.len() {
        assert(es[i as int] == entries@[i as int]@);
        assert(first_selected(es, t, i as int) == i);
        match update_action(&entries[i], target) {
            UpdateAction::Fetch(revision) => UpdateStep::Fetch { index: i, revision },
            UpdateAction::SkipPinned(message) => UpdateStep::SkipPinned { index: i, message },
            UpdateAction::Refuse(m) => UpdateStep::Fail(m),
            UpdateAction::NotSelected => UpdateStep::Write,
        }
    } else {
        match update_outcome(target, touched) {
            Ok(()) => UpdateStep::Write,
            Err(m) => UpdateStep::Fail(m),
        }
    }
}

/// Records that entry `index` was fetched at `commit` on `date`: the entry
/// takes the new commit and date, the others stay as they were. Tells whether
/// the commit changed, and the count of fetched entries with this one.
pub fn record_fetch(
    entries: &mut Vec<Entry>,
    index: usize,
    commit: String,
    date: String,
    touched: usize,
) -> (r: (bool, usize))
    requires
        index < old(entries)@.len(),
        touched < usize::MAX,
    ensures
        final(entries)@.len() == old(entries)@.len(),
        forall|j: int|
            0 <= j < old(entries)@.len() && j != index ==> #[trigger] final(entries)@[j] == old(
                entries,
            )@[j],
        final(entries)@[index as int]@ == (SpecEntry {
            commit: commit@,
            date: date@,
            ..old(entries)@[index as int]@
        }),
        r.0 == (old(entries)@[index as int].commit@ != commit@),
        r.1 == touched + 1,
{
    let mut e = entries.remove(index);
    let changed = apply_update(&mut e, commit, date);
    entries.insert(index, e);
    (changed, touched + 1)
}

/// The argument of `marmita rm <file>`.
pub fn rm_args(args: &[String]) -> (r: Result<String, String>)
    ensures
        args@.len() == 1 ==> (r matches Ok(f) && f@ == args@[0]@),
        args@.len() != 1 ==> (r matches Err(m) && m@ == usage_text()),
{
    if args.len() != 1 {
        let mut m = String::new();
        m.append(usage_str());
        return Err(m);
    }
    Ok(args[0].clone())
}

/// Removes the entries for `file`; fails, removing nothing, where there is none.
pub fn remove_entry(entries: &mut Vec<Entry>, file: &str) -> (r: Result<(), String>)
    ensures
        entries_view(final(entries)@) == without_file(entries_view(old(entries)@), file@),
        r is Ok <==> exists|i: int|
            0 <= i < old(entries)@.len() && (#[trigger] old(entries)@[i]).file@ == file@,
        r matches Err(m) ==> m@ == file@ + ": no such entry"@,
{
    let before = entries.len();
    let mut taken: Vec<Entry> = Vec::new();
    std::mem::swap(&mut taken, entries);
    let ghost orig = taken@;
    *entries = drop_file(taken, file);
    proof {
        lemma_without_file_len(entries_view(orig), file@);
        assert(forall|i: int| 0 <= i < orig.len() ==> #[trigger] entries_view(orig)[i] == orig[i]@);
        assert(entries_view(entries@).len() == entries@.len());
    }
    if entries.len() == before {
        assert forall|i: int| 0 <= i < orig.len() implies (#[trigger] orig[i]).file@ != file@ by {
            assert(entries_view(orig)[i] == orig[i]@);
        }
        let mut m = String::new();
        m.append(file);
        m.append(": no such entry");
        return Err(m);
    }
    Ok(())
}

proof fn lemma_without_file_len(es: Seq<SpecEntry>, f: Seq<char>)
    ensures
        without_file(es, f).len() == es.len() <==> forall|i: int|
            0 <= i < es.len() ==> (#[trigger] es[i]).file != f,
        without_file(es, f).len() <= es.len(),
    decreases es.len(),
{
    reveal(Seq::filter);
    if es.len() > 0 {
        lemma_without_file_len(es.drop_last(), f);
        assert forall|i: int| 0 <= i < es.drop_last().len() implies es.drop_last()[i] == es[i] by {}
    }
}

/// What `marmita rm` reports: `removed <file>`.
pub fn removed_message(file: &str) -> (m: String)
    ensures
        m@ == "removed "@ + file@,
{
    let mut m = String::new();
    m.append("removed ");
    m.append(file);
    m
}

/// `marmita list` takes no arguments.
pub fn list_args(args: &[String]) -> (r: Result<(), String>)
    ensures
        args@.len() == 0 ==> r is Ok,
        args@.len() != 0 ==> (r matches Err(m) && m@ == usage_text()),
{
    if args.len() != 0 {
        let mut m = String::new();
        m.append(usage_str());
        return Err(m);
    }
    Ok(())
}

/// A line of `marmita list`: file, short commit, reference (`-` if none), date
/// and origin, separated by tabs.
pub fn list_line(e: &Entry) -> (m: String)
    requires
        can_shorten(e.commit@),
    ensures
        m@ == e.file@ + "\t"@ + short_text(e.commit@) + "\t"@ + match e.reference {
            Some(r) => r@,
            None => "-"@,
        } + "\t"@ + e.date@ + "\t"@ + e.origin@,
{
    let mut m = String::new();
    m.append(e.file.as_str());
    m.append("\t");
    m.append(short(e.commit.as_str()));
    m.append("\t");
    match &e.reference {
        Some(r) => m.append(r.as_str()),
        None => m.append("-"),
    }
    m.append("\t");
    m.append(e.date.as_str());
    m.append("\t");
    m.append(e.origin.as_str());
    m
}

} // verus!

//! The `vendor/VENDOR` manifest: its entries, how it is read and how it is written.
use vstd::prelude::*;

use crate::text::{
    chars_of, decimal, find_char, find_in, has_ws, is_whitespace, is_ws, lemma_find_char,
    push_char, push_decimal, range_has_ws, range_is, skip_ws, skip_ws_back, string_of, trim,
    trim_start,
};

verus! {

/// One vendored file: where it came from and at which commit.
#[derive(Clone, Debug)]
pub struct Entry {
    pub file: String,
    pub origin: String,
    pub reference: Option<String>,
    pub commit: String,
    pub date: String,
}

/// An entry as the text it holds.
pub struct SpecEntry {
    pub file: Seq<char>,
    pub origin: Seq<char>,
    pub reference: Option<Seq<char>>,
    pub commit: Seq<char>,
    pub date: Seq<char>,
}

/// An optional string as the text it holds.
pub open spec fn opt_view(o: Option<String>) -> Option<Seq<char>> {
    match o {
        Some(s) => Some(s@),
        None => None,
    }
}

impl View for Entry {
    type V = SpecEntry;

    open spec fn view(&self) -> SpecEntry {
        SpecEntry {
            file: self.file@,
            origin: self.origin@,
            reference: opt_view(self.reference),
            commit: self.commit@,
            date: self.date@,
        }
    }
}

/// The entries of a list, each by its view.
pub open spec fn entries_view(es: Seq<Entry>) -> Seq<SpecEntry> {
    es.map_values(|e: Entry| e@)
}

/// Why a manifest was refused, with the number of the line (0: the end of the text).
pub enum ParseFailure {
    KeyValueExpected(nat),
    OutsideEntry(nat),
    UnknownAttribute(nat, Seq<char>),
    MissingFields(nat, Seq<char>),
}

/// The message with which a refused manifest is reported.
pub open spec fn failure_message(f: ParseFailure) -> Seq<char> {
    match f {
        ParseFailure::KeyValueExpected(n) => "vendor/VENDOR:"@ + decimal(n) + ": expected 'key: value'"@,
        ParseFailure::OutsideEntry(n) => "vendor/VENDOR:"@ + decimal(n) + ": attribute outside entry"@,
        ParseFailure::UnknownAttribute(n, key) => "vendor/VENDOR:"@ + decimal(n)
            + ": unknown attribute '"@ + key + "'"@,
        ParseFailure::MissingFields(n, file) => "vendor/VENDOR:"@ + decimal(n) + ": entry '"@ + file
            + "' is missing origin/commit/date"@,
    }
}

/// A line without the carriage return that ended it.
pub open spec fn strip_cr(l: Seq<char>) -> Seq<char> {
    if l.len() > 0 && l.last() == '\r' {
        l.drop_last()
    } else {
        l
    }
}

/// The lines of a text as `str::lines` gives them: split at each `\n`, a `\r`
/// just before it dropped, and no empty line after a final `\n`.
pub open spec fn lines(t: Seq<char>) -> Seq<Seq<char>>
    decreases t.len(),
{
    if t.len() == 0 {
        seq![]
    } else {
        let k = find_char(t, '\n');
        if k < t.len() {
            proof {
                lemma_find_char(t, '\n');
            }
            seq![strip_cr(t.take(k))] + lines(t.skip(k + 1))
        } else {
            seq![t]
        }
    }
}

/// The attribute keys of an entry.
pub open spec fn word_origin() -> Seq<char> {
    seq!['o', 'r', 'i', 'g', 'i', 'n']
}

pub open spec fn word_ref() -> Seq<char> {
    seq!['r', 'e', 'f']
}

pub open spec fn word_commit() -> Seq<char> {
    seq!['c', 'o', 'm', 'm', 'i', 't']
}

pub open spec fn word_date() -> Seq<char> {
    seq!['d', 'a', 't', 'e']
}

/// A new entry for `file`, its attributes not yet read.
pub open spec fn new_entry(file: Seq<char>) -> SpecEntry {
    SpecEntry { file, origin: seq![], reference: None, commit: seq![], date: seq![] }
}

/// The entry with attribute `key` set to `val`, or `None` for an unknown key.
pub open spec fn set_attribute(e: SpecEntry, key: Seq<char>, val: Seq<char>) -> Option<SpecEntry> {
    if key == word_origin() {
        Some(SpecEntry { origin: val, ..e })
    } else if key == word_ref() {
        Some(SpecEntry { reference: Some(val), ..e })
    } else if key == word_commit() {
        Some(SpecEntry { commit: val, ..e })
    } else if key == word_date() {
        Some(SpecEntry { date: val, ..e })
    } else {
        None
    }
}

/// `out` with `e` at its end, where `e` has an origin, a commit and a date.
pub open spec fn push_checked(out: Seq<SpecEntry>, e: SpecEntry, lineno: nat) -> Result<
    Seq<SpecEntry>,
    ParseFailure,
> {
    if e.origin.len() == 0 || e.commit.len() == 0 || e.date.len() == 0 {
        Err(ParseFailure::MissingFields(lineno, e.file))
    } else {
        Ok(out.push(e))
    }
}

/// `out` with the entry being read, if any, at its end.
pub open spec fn flush(cur: Option<SpecEntry>, out: Seq<SpecEntry>, lineno: nat) -> Result<
    Seq<SpecEntry>,
    ParseFailure,
> {
    match cur {
        Some(e) => push_checked(out, e, lineno),
        None => Ok(out),
    }
}

/// Reads the lines from the `i`-th on, with `cur` the entry being read and `out`
/// the entries read so far.
///
/// A blank line ends an entry. A line that starts with no white space is a
/// header: it ends the entry being read and, if it is one word, starts a new
/// entry of that name; otherwise it ends the manifest. Any other line is an
/// attribute `key: value` of the entry being read.
pub open spec fn parse_from(
    ls: Seq<Seq<char>>,
    i: int,
    cur: Option<SpecEntry>,
    out: Seq<SpecEntry>,
) -> Result<Seq<SpecEntry>, ParseFailure>
    decreases ls.len() - i,
{
    if i < 0 || i >= ls.len() {
        flush(cur, out, 0)
    } else {
        let raw = ls[i];
        let lineno = (i + 1) as nat;
        if trim(raw).len() == 0 {
            match flush(cur, out, lineno) {
                Ok(o) => parse_from(ls, i + 1, None, o),
                Err(f) => Err(f),
            }
        } else if !is_ws(raw[0]) {
            match flush(cur, out, lineno) {
                Ok(o) => if has_ws(trim(raw)) {
                    Ok(o)
                } else {
                    parse_from(ls, i + 1, Some(new_entry(trim(raw))), o)
                },
                Err(f) => Err(f),
            }
        } else {
            let line = trim_start(raw);
            let k = find_char(line, ':');
            if k >= line.len() {
                Err(ParseFailure::KeyValueExpected(lineno))
            } else {
                match cur {
                    None => Err(ParseFailure::OutsideEntry(lineno)),
                    Some(e) => {
                        let key = trim(line.take(k));
                        match set_attribute(e, key, trim(line.skip(k + 1))) {
                            Some(e2) => parse_from(ls, i + 1, Some(e2), out),
                            None => Err(ParseFailure::UnknownAttribute(lineno, key)),
                        }
                    },
                }
            }
        }
    }
}

/// The entries of a manifest text, or why it is refused.
pub open spec fn spec_parse_vendor(text: Seq<char>) -> Result<Seq<SpecEntry>, ParseFailure> {
    parse_from(lines(text), 0, None, seq![])
}

fn failure_text(f: &ExecFailure) -> (s: String)
    ensures
        s@ == failure_message(f.spec()),
{
    let mut s = String::new();
    s.append("vendor/VENDOR:");
    match f {
        ExecFailure::KeyValueExpected(n) => {
            push_decimal(&mut s, *n as u64);
            s.append(": expected 'key: value'");
        },
        ExecFailure::OutsideEntry(n) => {
            push_decimal(&mut s, *n as u64);
            s.append(": attribute outside entry");
        },
        ExecFailure::UnknownAttribute(n, key) => {
            push_decimal(&mut s, *n as u64);
            s.append(": unknown attribute '");
            s.append(key.as_str());
            s.append("'");
        },
        ExecFailure::MissingFields(n, file) => {
            push_decimal(&mut s, *n as u64);
            s.append(": entry '");
            s.append(file.as_str());
            s.append("' is missing origin/commit/date");
        },
    }
    s
}

/// Why a manifest is refused, as the reader finds it.
enum ExecFailure {
    KeyValueExpected(usize),
    OutsideEntry(usize),
    UnknownAttribute(usize, String),
    MissingFields(usize, String),
}

impl ExecFailure {
    spec fn spec(&self) -> ParseFailure {
        match self {
            ExecFailure::KeyValueExpected(n) => ParseFailure::KeyValueExpected(*n as nat),
            ExecFailure::OutsideEntry(n) => ParseFailure::OutsideEntry(*n as nat),
            ExecFailure::UnknownAttribute(n, k) => ParseFailure::UnknownAttribute(*n as nat, k@),
            ExecFailure::MissingFields(n, f) => ParseFailure::MissingFields(*n as nat, f@),
        }
    }
}

/// Appends `e` to `out`, where `e` has an origin, a commit and a date;
/// otherwise reports, for line `lineno`, that the entry misses one.
pub fn push_entry(out: &mut Vec<Entry>, e: Entry, lineno: usize) -> (r: Result<(), String>)
    ensures
        match push_checked(entries_view(old(out)@), e@, lineno as nat) {
            Ok(o) => r is Ok && entries_view(final(out)@) == o,
            Err(f) => r is Err && r->Err_0@ == failure_message(f) && final(out)@ == old(out)@,
        },
{
    if e.origin.as_str().is_empty() || e.commit.as_str().is_empty() || e.date.as_str().is_empty() {
        let f = ExecFailure::MissingFields(lineno, e.file);
        return Err(failure_text(&f));
    }
    let ghost before = out@;
    out.push(e);
    assert(entries_view(out@) =~= entries_view(before).push(e@));
    Ok(())
}

/// The entry being read, if any, as the text it holds.
pub open spec fn opt_entry_view(o: Option<Entry>) -> Option<SpecEntry> {
    match o {
        Some(e) => Some(e@),
        None => None,
    }
}

/// What became of one line.
enum LineOutcome {
    /// Go on with the next line.
    Next,
    /// The manifest ends here.
    Stop,
    /// The manifest is refused, with this message.
    Refused(String),
}

/// Appends the entry being read, if any, to `out`.
fn flush_entry(cur: Option<Entry>, out: &mut Vec<Entry>, lineno: usize) -> (r: Result<(), String>)
    ensures
        match flush(opt_entry_view(cur), entries_view(old(out)@), lineno as nat) {
            Ok(o) => r is Ok && entries_view(final(out)@) == o,
            Err(f) => r is Err && r->Err_0@ == failure_message(f),
        },
{
    match cur {
        Some(e) => push_entry(out, e, lineno),
        None => Ok(()),
    }
}

/// Reads line `chars[pos..end]`, the `i`-th of `ls`.
fn parse_line(
    chars: &Vec<char>,
    pos: usize,
    end: usize,
    i: usize,
    Ghost(ls): Ghost<Seq<Seq<char>>>,
    cur: &mut Option<Entry>,
    out: &mut Vec<Entry>,
) -> (r: LineOutcome)
    requires
        pos <= end <= chars@.len(),
        i < ls.len(),
        i < usize::MAX,
        ls[i as int] == chars@.subrange(pos as int, end as int),
    ensures
        match r {
            LineOutcome::Next => parse_from(ls, i as int, opt_entry_view(*old(cur)), entries_view(old(out)@))
                == parse_from(ls, i + 1, opt_entry_view(*final(cur)), entries_view(final(out)@)),
            LineOutcome::Stop => parse_from(ls, i as int, opt_entry_view(*old(cur)), entries_view(old(out)@))
                == Ok::<Seq<SpecEntry>, ParseFailure>(entries_view(final(out)@)),
            LineOutcome::Refused(m) => parse_from(ls, i as int, opt_entry_view(*old(cur)), entries_view(old(out)@))
                matches Err(f) && m@ == failure_message(f),
        },
{
    let lineno = i + 1;
    let ghost raw = chars@.subrange(pos as int, end as int);
    let ts = skip_ws(chars.as_slice(), pos, end);
    let te = skip_ws_back(chars.as_slice(), ts, end);
    assert(trim(raw) == chars@.subrange(ts as int, te as int));
    if ts == te {
        let c = cur.take();
        match flush_entry(c, out, lineno) {
            Ok(()) => LineOutcome::Next,
            Err(m) => LineOutcome::Refused(m),
        }
    } else if !is_whitespace(chars[pos]) {
        assert(raw[0] == chars@[pos as int]);
        let c = cur.take();
        match flush_entry(c, out, lineno) {
            Ok(()) => {},
            Err(m) => {
                return LineOutcome::Refused(m);
            },
        }
        if range_has_ws(chars.as_slice(), ts, te) {
            return LineOutcome::Stop;
        }
        let file = string_of(chars.as_slice(), ts, te);
        *cur = Some(
            Entry {
                file,
                origin: String::new(),
                reference: None,
                commit: String::new(),
                date: String::new(),
            },
        );
        assert(opt_entry_view(*cur) == Some(new_entry(trim(raw))));
        LineOutcome::Next
    } else {
        assert(raw[0] == chars@[pos as int]);
        let ghost line = chars@.subrange(ts as int, end as int);
        assert(trim_start(raw) == line);
        let c = find_in(chars.as_slice(), ts, end, ':');
        if c == end {
            return LineOutcome::Refused(failure_text(&ExecFailure::KeyValueExpected(lineno)));
        }
        let ks = skip_ws(chars.as_slice(), ts, c);
        let ke = skip_ws_back(chars.as_slice(), ks, c);
        let vs = skip_ws(chars.as_slice(), c + 1, end);
        let ve = skip_ws_back(chars.as_slice(), vs, end);
        assert(line.take(c - ts) =~= chars@.subrange(ts as int, c as int));
        assert(line.skip(c - ts + 1) =~= chars@.subrange(c + 1, end as int));
        let ghost key = chars@.subrange(ks as int, ke as int);
        let ghost val = chars@.subrange(vs as int, ve as int);
        assert(trim(line.take(c - ts)) == key);
        assert(trim(line.skip(c - ts + 1)) == val);
        let taken = cur.take();
        match taken {
            None => LineOutcome::Refused(failure_text(&ExecFailure::OutsideEntry(lineno))),
            Some(mut en) => {
                let ghost old_en = en@;
                proof {
                    reveal_strlit("origin");
                    reveal_strlit("ref");
                    reveal_strlit("commit");
                    reveal_strlit("date");
                }
                if range_is(chars.as_slice(), ks, ke, "origin") {
                    assert("origin"@ =~= word_origin());
                    en.origin = string_of(chars.as_slice(), vs, ve);
                } else if range_is(chars.as_slice(), ks, ke, "ref") {
                    assert("origin"@ =~= word_origin());
                    assert("ref"@ =~= word_ref());
                    en.reference = Some(string_of(chars.as_slice(), vs, ve));
                } else if range_is(chars.as_slice(), ks, ke, "commit") {
                    assert("origin"@ =~= word_origin());
                    assert("ref"@ =~= word_ref());
                    assert("commit"@ =~= word_commit());
                    en.commit = string_of(chars.as_slice(), vs, ve);
                } else if range_is(chars.as_slice(), ks, ke, "date") {
                    assert("origin"@ =~= word_origin());
                    assert("ref"@ =~= word_ref());
                    assert("commit"@ =~= word_commit());
                    assert("date"@ =~= word_date());
                    en.date = string_of(chars.as_slice(), vs, ve);
                } else {
                    assert("origin"@ =~= word_origin());
                    assert("ref"@ =~= word_ref());
                    assert("commit"@ =~= word_commit());
                    assert("date"@ =~= word_date());
                    let k = string_of(chars.as_slice(), ks, ke);
                    return LineOutcome::Refused(
                        failure_text(&ExecFailure::UnknownAttribute(lineno, k)),
                    );
                }
                assert(set_attribute(old_en, key, val) == Some(en@));
                *cur = Some(en);
                LineOutcome::Next
            },
        }
    }
}

/// Reads a manifest: its entries in order, or the message that says why the
/// text is refused.
pub fn parse_vendor(text: &str) -> (r: Result<Vec<Entry>, String>)
    ensures
        match spec_parse_vendor(text@) {
            Ok(es) => r is Ok && entries_view(r->Ok_0@) == es,
            Err(f) => r is Err && r->Err_0@ == failure_message(f),
        },
{
    let chars = chars_of(text);
    let n = chars.len();
    let ghost t = chars@;
    let mut out: Vec<Entry> = Vec::new();
    let mut cur: Option<Entry> = None;
    let mut pos: usize = 0;
    let mut i: usize = 0;
    let ghost mut done: Seq<Seq<char>> = seq![];
    assert(t.skip(0) =~= t);
    assert(entries_view(out@) =~= seq![]);
    while pos < n
        invariant
            n == chars@.len(),
            t == chars@,
            t == text@,
            pos <= n,
            i <= pos,
            lines(t) == done + lines(t.skip(pos as int)),
            done.len() == i,
            spec_parse_vendor(t) == parse_from(
                lines(t),
                i as int,
                opt_entry_view(cur),
                entries_view(out@),
            ),
        decreases n - pos,
    {
        let k = find_in(chars.as_slice(), pos, n, '\n');
        let mut end = k;
        let next;
        if k < n {
            if end > pos && chars[end - 1] == '\r' {
                end = end - 1;
            }
            next = k + 1;
        } else {
            next = n;
        }
        let ghost raw = t.subrange(pos as int, end as int);
        proof {
            let rest = t.skip(pos as int);
            assert(rest =~= t.subrange(pos as int, n as int));
            if k < n {
                assert(rest.take(k - pos) =~= t.subrange(pos as int, k as int));
                assert(strip_cr(rest.take(k - pos)) =~= raw);
                assert(rest.skip(k - pos + 1) =~= t.skip(next as int));
                assert(lines(rest) == seq![raw] + lines(t.skip(next as int)));
            } else {
                assert(raw =~= rest);
                assert(t.skip(next as int) =~= Seq::<char>::empty());
                assert(lines(rest) == seq![raw]);
                assert(lines(t.skip(next as int)) =~= Seq::<Seq<char>>::empty());
            }
            assert(lines(t) =~= done.push(raw) + lines(t.skip(next as int)));
        }
        match parse_line(&chars, pos, end, i, Ghost(lines(t)), &mut cur, &mut out) {
            LineOutcome::Next => {},
            LineOutcome::Stop => {
                return Ok(out);
            },
            LineOutcome::Refused(m) => {
                return Err(m);
            },
        }
        proof {
            done = done.push(raw);
        }
        i = i + 1;
        pos = next;
    }
    assert(t.skip(n as int) =~= Seq::<char>::empty());
    assert(lines(t) =~= done);
    match flush_entry(cur, &mut out, 0) {
        Ok(()) => Ok(out),
        Err(m) => Err(m),
    }
}

/// An attribute line: a tab, the key, a colon, a tab and the value.
pub open spec fn attribute_line(key: Seq<char>, val: Seq<char>) -> Seq<char> {
    seq!['\t'] + key + seq![':', '\t'] + val
}

/// The lines that an entry is written as: its name, its attributes, and a blank line.
pub open spec fn entry_lines(e: SpecEntry) -> Seq<Seq<char>> {
    seq![e.file, attribute_line(word_origin(), e.origin)] + match e.reference {
        Some(r) => seq![attribute_line(word_ref(), r)],
        None => Seq::<Seq<char>>::empty(),
    } + seq![attribute_line(word_commit(), e.commit), attribute_line(word_date(), e.date), seq![]]
}

/// The lines of all entries, in order.
pub open spec fn entries_lines(es: Seq<SpecEntry>) -> Seq<Seq<char>>
    decreases es.len(),
{
    if es.len() == 0 {
        seq![]
    } else {
        entries_lines(es.drop_last()) + entry_lines(es.last())
    }
}

/// The line that closes a manifest that marmita wrote.
pub open spec fn trailer_line() -> Seq<char> {
    "Managed by marmita(1).  Use 'marmita update' to refresh."@
}

/// The lines of the manifest written for `es`.
pub open spec fn manifest_lines(es: Seq<SpecEntry>) -> Seq<Seq<char>> {
    entries_lines(es) + seq![trailer_line()]
}

/// Lines joined into a text, each ended by `\n`.
pub open spec fn join_lines(ls: Seq<Seq<char>>) -> Seq<char>
    decreases ls.len(),
{
    if ls.len() == 0 {
        seq![]
    } else {
        join_lines(ls.drop_last()) + ls.last() + seq!['\n']
    }
}

/// The text of the manifest written for `es`.
pub open spec fn vendor_text(es: Seq<SpecEntry>) -> Seq<char> {
    join_lines(manifest_lines(es))
}

pub proof fn lemma_join_lines_add(a: Seq<Seq<char>>, b: Seq<Seq<char>>)
    ensures
        join_lines(a + b) == join_lines(a) + join_lines(b),
    decreases b.len(),
{
    if b.len() == 0 {
        assert(a + b =~= a);
        assert(join_lines(a) + join_lines(b) =~= join_lines(a));
    } else {
        assert((a + b).drop_last() =~= a + b.drop_last());
        lemma_join_lines_add(a, b.drop_last());
        assert(join_lines(a + b) =~= join_lines(a) + join_lines(b));
    }
}

proof fn lemma_join_one(l: Seq<char>)
    ensures
        join_lines(seq![l]) == l + seq!['\n'],
{
    assert(seq![l].drop_last() =~= Seq::<Seq<char>>::empty());
    assert(join_lines(Seq::<Seq<char>>::empty()) == Seq::<char>::empty());
    assert(seq![l].last() == l);
    assert(join_lines(seq![l]) =~= l + seq!['\n']);
}

fn push_attribute(s: &mut String, key: &str, val: &String, Ghost(word): Ghost<Seq<char>>)
    requires
        key@ == word,
    ensures
        final(s)@ == old(s)@ + attribute_line(word, val@) + seq!['\n'],
{
    push_char(s, '\t');
    s.append(key);
    push_char(s, ':');
    push_char(s, '\t');
    s.append(val.as_str());
    push_char(s, '\n');
    assert(final(s)@ =~= old(s)@ + attribute_line(word, val@) + seq!['\n']);
}

fn push_entry_text(s: &mut String, e: &Entry)
    ensures
        final(s)@ == old(s)@ + join_lines(entry_lines(e@)),
{
    proof {
        reveal_strlit("origin");
        reveal_strlit("ref");
        reveal_strlit("commit");
        reveal_strlit("date");
        assert("origin"@ =~= word_origin());
        assert("ref"@ =~= word_ref());
        assert("commit"@ =~= word_commit());
        assert("date"@ =~= word_date());
    }
    let ghost start = s@;
    s.append(e.file.as_str());
    push_char(s, '\n');
    push_attribute(s, "origin", &e.origin, Ghost(word_origin()));
    match &e.reference {
        Some(r) => {
            push_attribute(s, "ref", r, Ghost(word_ref()));
        },
        None => {},
    }
    push_attribute(s, "commit", &e.commit, Ghost(word_commit()));
    push_attribute(s, "date", &e.date, Ghost(word_date()));
    push_char(s, '\n');
    proof {
        let ev = e@;
        let a = seq![ev.file, attribute_line(word_origin(), ev.origin)];
        let b = match ev.reference {
            Some(r) => seq![attribute_line(word_ref(), r)],
            None => Seq::<Seq<char>>::empty(),
        };
        let c = seq![attribute_line(word_commit(), ev.commit), attribute_line(word_date(), ev.date), seq![]];
        lemma_join_lines_add(a + b, c);
        lemma_join_lines_add(a, b);
        assert(a =~= seq![ev.file] + seq![attribute_line(word_origin(), ev.origin)]);
        lemma_join_lines_add(seq![ev.file], seq![attribute_line(word_origin(), ev.origin)]);
        lemma_join_one(ev.file);
        lemma_join_one(attribute_line(word_origin(), ev.origin));
        assert(c =~= seq![attribute_line(word_commit(), ev.commit)] + seq![attribute_line(word_date(), ev.date)] + seq![seq![]]);
        lemma_join_lines_add(seq![attribute_line(word_commit(), ev.commit)] + seq![attribute_line(word_date(), ev.date)], seq![seq![]]);
        lemma_join_lines_add(seq![attribute_line(word_commit(), ev.commit)], seq![attribute_line(word_date(), ev.date)]);
        lemma_join_one(attribute_line(word_commit(), ev.commit));
        lemma_join_one(attribute_line(word_date(), ev.date));
        lemma_join_one(seq![]);
        match ev.reference {
            Some(r) => { lemma_join_one(attribute_line(word_ref(), r)); },
            None => { assert(join_lines(b) =~= Seq::<char>::empty()); },
        }
        assert(s@ =~= start + join_lines(entry_lines(ev)));
    }
}

/// Writes the manifest for `entries`: each entry as its name, its attributes on
/// tab-indented lines and a blank line, in order; then the closing line.
pub fn format_vendor(entries: &[Entry]) -> (s: String)
    ensures
        s@ == vendor_text(entries_view(entries@)),
{
    let mut s = String::new();
    let mut i: usize = 0;
    while i < entries.len()
        invariant
            i <= entries@.len(),
            s@ == join_lines(entries_lines(entries_view(entries@.take(i as int)))),
        decreases entries@.len() - i,
    {
        let ghost before = s@;
        push_entry_text(&mut s, &entries[i]);
        proof {
            let ev = entries_view(entries@.take(i + 1));
            assert(ev.drop_last() =~= entries_view(entries@.take(i as int)));
            assert(ev.last() == entries@[i as int]@);
            lemma_join_lines_add(entries_lines(ev.drop_last()), entry_lines(ev.last()));
        }
        i = i + 1;
    }
    assert(entries@.take(i as int) =~= entries@);
    s.append("Managed by marmita(1).  Use 'marmita update' to refresh.\n");
    proof {
        reveal_strlit("Managed by marmita(1).  Use 'marmita update' to refresh.\n");
        reveal_strlit("Managed by marmita(1).  Use 'marmita update' to refresh.");
        lemma_join_lines_add(entries_lines(entries_view(entries@)), seq![trailer_line()]);
        lemma_join_one(trailer_line());
        assert("Managed by marmita(1).  Use 'marmita update' to refresh.\n"@ =~= trailer_line()
            + seq!['\n']);
    }
    s
}

} // verus!

//! What the manifest writer writes, the manifest reader reads back.
use vstd::prelude::*;

use crate::manifest::{
    attribute_line, entries_lines, entry_lines, flush, join_lines, lemma_join_lines_add, lines,
    manifest_lines, new_entry, parse_from, set_attribute, spec_parse_vendor, strip_cr,
    trailer_line, vendor_text, word_commit, word_date, word_origin, word_ref, ParseFailure, SpecEntry,
};
use crate::text::{find_char, has_ws, is_ws, lemma_find_char_unique, trim, trim_end, trim_start};

verus! {

/// No character of `s` is a line feed.
pub open spec fn no_newline(s: Seq<char>) -> bool {
    forall|i: int| 0 <= i < s.len() ==> s[i] != '\n'
}

/// A value that reads back as written: no white space at either end and on one line.
pub open spec fn is_field_value(v: Seq<char>) -> bool {
    trim(v) == v && no_newline(v)
}

/// An entry that the manifest can hold: a name of one word, and an origin, a
/// commit and a date (and a reference, if any) that read back as written.
pub open spec fn is_writable_entry(e: SpecEntry) -> bool {
    &&& e.file.len() > 0
    &&& !has_ws(e.file)
    &&& e.origin.len() > 0
    &&& e.commit.len() > 0
    &&& e.date.len() > 0
    &&& is_field_value(e.origin)
    &&& is_field_value(e.commit)
    &&& is_field_value(e.date)
    &&& (e.reference matches Some(r) ==> is_field_value(r))
}

/// A line that `lines` gives back unchanged when it is followed by `\n`.
spec fn is_plain_line(l: Seq<char>) -> bool {
    no_newline(l) && !(l.len() > 0 && l.last() == '\r')
}

proof fn lemma_lines_cons(l: Seq<char>, rest: Seq<char>)
    requires
        no_newline(l),
    ensures
        lines(l + seq!['\n'] + rest) == seq![strip_cr(l)] + lines(rest),
{
    let t = l + seq!['\n'] + rest;
    lemma_find_char_unique(t, '\n', l.len() as int);
    assert(t.take(l.len() as int) =~= l);
    assert(t.skip(l.len() as int + 1) =~= rest);
}

proof fn lemma_join_lines_front(ls: Seq<Seq<char>>)
    requires
        ls.len() > 0,
    ensures
        join_lines(ls) == ls[0] + seq!['\n'] + join_lines(ls.drop_first()),
{
    assert(ls =~= seq![ls[0]] + ls.drop_first());
    lemma_join_lines_add(seq![ls[0]], ls.drop_first());
    assert(seq![ls[0]].drop_last() =~= Seq::<Seq<char>>::empty());
    assert(join_lines(Seq::<Seq<char>>::empty()) == Seq::<char>::empty());
    assert(join_lines(seq![ls[0]]) =~= ls[0] + seq!['\n']);
}

/// Lines without line feeds or closing carriage returns, joined, split back into themselves.
proof fn lemma_lines_of_join(ls: Seq<Seq<char>>)
    requires
        forall|j: int| 0 <= j < ls.len() ==> is_plain_line(#[trigger] ls[j]),
    ensures
        lines(join_lines(ls)) == ls,
    decreases ls.len(),
{
    if ls.len() == 0 {
        assert(lines(join_lines(ls)) =~= ls);
    } else {
        lemma_join_lines_front(ls);
        assert(is_plain_line(ls[0]));
        lemma_lines_cons(ls[0], join_lines(ls.drop_first()));
        assert(forall|j: int|
            0 <= j < ls.drop_first().len() ==> #[trigger] ls.drop_first()[j] == ls[j + 1]);
        lemma_lines_of_join(ls.drop_first());
        assert(strip_cr(ls[0]) == ls[0]);
        assert(ls =~= seq![ls[0]] + ls.drop_first());
    }
}

proof fn lemma_trim_start_keeps(s: Seq<char>)
    requires
        s.len() > 0,
        !is_ws(s[0]),
    ensures
        trim_start(s) == s,
{
}

proof fn lemma_trim_end_nonempty(s: Seq<char>)
    requires
        s.len() > 0,
        !is_ws(s[0]),
    ensures
        trim_end(s).len() > 0,
    decreases s.len(),
{
    if is_ws(s.last()) {
        assert(s.len() > 1);
        assert(s.drop_last()[0] == s[0]);
        lemma_trim_end_nonempty(s.drop_last());
    }
}

/// A word without white space trims to itself.
proof fn lemma_trim_word(w: Seq<char>)
    requires
        w.len() > 0,
        !has_ws(w),
    ensures
        trim(w) == w,
        trim_start(w) == w,
{
    assert(!is_ws(w[0]));
    assert(!is_ws(w.last()));
}

/// The keys of the manifest: words without white space or colons, all different.
proof fn lemma_words()
    ensures
        !has_ws(word_origin()) && find_char(word_origin(), ':') == word_origin().len(),
        !has_ws(word_ref()) && find_char(word_ref(), ':') == word_ref().len(),
        !has_ws(word_commit()) && find_char(word_commit(), ':') == word_commit().len(),
        !has_ws(word_date()) && find_char(word_date(), ':') == word_date().len(),
        word_origin().len() > 0 && word_ref().len() > 0 && word_commit().len() > 0
            && word_date().len() > 0,
        word_origin() != word_ref() && word_origin() != word_commit() && word_origin()
            != word_date(),
        word_ref() != word_commit() && word_ref() != word_date(),
        word_commit() != word_date(),
{
    assert(word_origin()[0] != word_commit()[0]);
    assert(word_origin()[0] != word_date()[0]);
    assert(word_ref()[0] != word_commit()[0]);
    assert(word_ref()[0] != word_date()[0]);
    assert(word_commit()[0] != word_date()[0]);
    lemma_find_char_unique(word_origin(), ':', 6);
    lemma_find_char_unique(word_ref(), ':', 3);
    lemma_find_char_unique(word_commit(), ':', 6);
    lemma_find_char_unique(word_date(), ':', 4);
}

/// What the reader makes of an attribute line that the writer wrote.
proof fn lemma_attribute_line(key: Seq<char>, val: Seq<char>)
    requires
        key.len() > 0,
        !has_ws(key),
        find_char(key, ':') == key.len(),
        is_field_value(val),
    ensures
        ({
            let raw = attribute_line(key, val);
            let line = trim_start(raw);
            let k = find_char(line, ':');
            &&& raw.len() > 0
            &&& is_ws(raw[0])
            &&& trim(raw).len() > 0
            &&& k < line.len()
            &&& trim(line.take(k)) == key
            &&& trim(line.skip(k + 1)) == val
            &&& is_plain_line(raw)
        }),
{
    let raw = attribute_line(key, val);
    let body = key + seq![':', '\t'] + val;
    assert(raw.drop_first() =~= body);
    assert(body[0] == key[0]);
    assert(!is_ws(key[0]));
    lemma_trim_start_keeps(body);
    assert(trim_start(raw) == body);
    lemma_trim_end_nonempty(body);
    assert forall|j: int| 0 <= j < key.len() implies body[j] != ':' by {
        lemma_find_char_unique_rev(key, ':', j);
    }
    lemma_find_char_unique(body, ':', key.len() as int);
    assert(body.take(key.len() as int) =~= key);
    lemma_trim_word(key);
    let tail = body.skip(key.len() as int + 1);
    assert(tail =~= seq!['\t'] + val);
    assert(tail.drop_first() =~= val);
    assert(trim_start(tail) == trim_start(val));
    assert(trim(val) == val);
    assert forall|i: int| 0 <= i < raw.len() implies raw[i] != '\n' by {
        if i >= key.len() + 3 {
            assert(raw[i] == val[i - key.len() - 3]);
        } else if 1 <= i < key.len() + 1 {
            assert(raw[i] == key[i - 1]);
            assert(!is_ws(key[i - 1]));
        }
    }
    if val.len() > 0 {
        assert(raw.last() == val.last());
        lemma_trimmed_ends(val);
    }
}

proof fn lemma_trim_end_shorter(s: Seq<char>)
    ensures
        trim_end(s).len() <= s.len(),
    decreases s.len(),
{
    if s.len() > 0 && is_ws(s.last()) {
        lemma_trim_end_shorter(s.drop_last());
    }
}

proof fn lemma_trim_start_shorter(s: Seq<char>)
    ensures
        trim_start(s).len() <= s.len(),
        s.len() > 0 && is_ws(s[0]) ==> trim_start(s).len() < s.len(),
    decreases s.len(),
{
    if s.len() > 0 && is_ws(s[0]) {
        lemma_trim_start_shorter(s.drop_first());
    }
}

/// A value that trims to itself starts and ends with no white space.
proof fn lemma_trimmed_ends(v: Seq<char>)
    requires
        trim(v) == v,
        v.len() > 0,
    ensures
        !is_ws(v[0]),
        !is_ws(v.last()),
{
    lemma_trim_start_shorter(v);
    lemma_trim_end_shorter(trim_start(v));
    if is_ws(v.last()) {
        assert(trim_start(v) == v);
        lemma_trim_end_shorter(v.drop_last());
    }
}

proof fn lemma_find_char_unique_rev(s: Seq<char>, c: char, j: int)
    requires
        0 <= j < find_char(s, c),
    ensures
        s[j] != c,
{
    crate::text::lemma_find_char(s, c);
}

proof fn lemma_attribute_step(
    ls: Seq<Seq<char>>,
    idx: int,
    cur: SpecEntry,
    key: Seq<char>,
    val: Seq<char>,
    out: Seq<SpecEntry>,
)
    requires
        0 <= idx < ls.len(),
        ls[idx] == attribute_line(key, val),
        key.len() > 0,
        !has_ws(key),
        find_char(key, ':') == key.len(),
        is_field_value(val),
        set_attribute(cur, key, val) is Some,
    ensures
        parse_from(ls, idx, Some(cur), out) == parse_from(
            ls,
            idx + 1,
            Some(set_attribute(cur, key, val)->Some_0),
            out,
        ),
{
    lemma_attribute_line(key, val);
}

/// The reader reads the lines that the writer wrote for a writable entry back into that entry.
proof fn lemma_parse_entry(ls: Seq<Seq<char>>, i: int, out: Seq<SpecEntry>, e: SpecEntry)
    requires
        is_writable_entry(e),
        0 <= i,
        i + entry_lines(e).len() <= ls.len(),
        ls.subrange(i, i + entry_lines(e).len()) == entry_lines(e),
    ensures
        parse_from(ls, i, None, out) == parse_from(
            ls,
            i + entry_lines(e).len(),
            None,
            out.push(e),
        ),
{
    let el = entry_lines(e);
    assert forall|j: int| i <= j < i + el.len() implies #[trigger] ls[j] == el[j - i] by {
        assert(ls.subrange(i, i + el.len())[j - i] == ls[j]);
    }
    let a = seq![e.file, attribute_line(word_origin(), e.origin)];
    let b = match e.reference {
        Some(r) => seq![attribute_line(word_ref(), r)],
        None => Seq::<Seq<char>>::empty(),
    };
    let c = seq![attribute_line(word_commit(), e.commit), attribute_line(word_date(), e.date), seq![]];
    assert(el == a + b + c);
    assert(el[0] == e.file);
    assert(el[1] == attribute_line(word_origin(), e.origin));
    lemma_words();
    lemma_trim_word(e.file);
    let e0 = new_entry(e.file);
    assert(ls[i] == e.file);
    assert(!is_ws(e.file[0]));
    assert(parse_from(ls, i, None, out) == parse_from(ls, i + 1, Some(e0), out));
    let e1 = SpecEntry { origin: e.origin, ..e0 };
    assert(ls[i + 1] == attribute_line(word_origin(), e.origin));
    lemma_attribute_step(ls, i + 1, e0, word_origin(), e.origin, out);
    let e2 = SpecEntry { reference: e.reference, ..e1 };
    let j = match e.reference {
        Some(r) => i + 3,
        None => i + 2,
    };
    match e.reference {
        Some(r) => {
            assert(el[2] == attribute_line(word_ref(), r));
            assert(ls[i + 2] == attribute_line(word_ref(), r));
            lemma_attribute_step(ls, i + 2, e1, word_ref(), r, out);
        },
        None => {},
    }
    assert(el[j - i] == attribute_line(word_commit(), e.commit));
    assert(el[j + 1 - i] == attribute_line(word_date(), e.date));
    assert(el[j + 2 - i] == Seq::<char>::empty());
    assert(parse_from(ls, i, None, out) == parse_from(ls, j, Some(e2), out));
    let e3 = SpecEntry { commit: e.commit, ..e2 };
    assert(ls[j] == attribute_line(word_commit(), e.commit));
    lemma_attribute_step(ls, j, e2, word_commit(), e.commit, out);
    let e4 = SpecEntry { date: e.date, ..e3 };
    assert(ls[j + 1] == attribute_line(word_date(), e.date));
    lemma_attribute_step(ls, j + 1, e3, word_date(), e.date, out);
    assert(e4 == e);
    assert(ls[j + 2] == Seq::<char>::empty());
    assert(trim(Seq::<char>::empty()).len() == 0);
    assert(j + 3 == i + el.len());
    assert(parse_from(ls, j + 2, Some(e4), out) == parse_from(ls, j + 3, None, out.push(e)));
}

proof fn lemma_parse_entries(ls: Seq<Seq<char>>, i: int, out: Seq<SpecEntry>, es: Seq<SpecEntry>)
    requires
        forall|k: int| 0 <= k < es.len() ==> is_writable_entry(#[trigger] es[k]),
        0 <= i,
        i + entries_lines(es).len() <= ls.len(),
        ls.subrange(i, i + entries_lines(es).len()) == entries_lines(es),
    ensures
        parse_from(ls, i, None, out) == parse_from(
            ls,
            i + entries_lines(es).len(),
            None,
            out + es,
        ),
    decreases es.len(),
{
    if es.len() == 0 {
        assert(out + es =~= out);
    } else {
        let pre = es.drop_last();
        let e = es.last();
        let lp = entries_lines(pre);
        let le = entry_lines(e);
        assert(entries_lines(es) == lp + le);
        assert(ls.subrange(i, i + lp.len()) =~= ls.subrange(i, i + entries_lines(es).len()).subrange(
            0,
            lp.len() as int,
        ));
        assert(ls.subrange(i, i + lp.len()) =~= lp);
        assert forall|k: int| 0 <= k < pre.len() implies is_writable_entry(#[trigger] pre[k]) by {
            assert(pre[k] == es[k]);
        }
        lemma_parse_entries(ls, i, out, pre);
        assert(ls.subrange(i + lp.len(), i + lp.len() + le.len()) =~= ls.subrange(
            i,
            i + entries_lines(es).len(),
        ).subrange(lp.len() as int, lp.len() as int + le.len()));
        assert(ls.subrange(i + lp.len(), i + lp.len() + le.len()) =~= le);
        assert(is_writable_entry(es[es.len() - 1]));
        lemma_parse_entry(ls, i + lp.len(), out + pre, e);
        assert((out + pre).push(e) =~= out + es);
    }
}

proof fn lemma_entry_lines_plain(e: SpecEntry)
    requires
        is_writable_entry(e),
    ensures
        forall|j: int| 0 <= j < entry_lines(e).len() ==> is_plain_line(#[trigger] entry_lines(e)[j]),
{
    lemma_words();
    assert(is_plain_line(e.file)) by {
        assert forall|i: int| 0 <= i < e.file.len() implies e.file[i] != '\n' by {
            assert(!is_ws(e.file[i]));
        }
        assert(!is_ws(e.file.last()));
    }
    lemma_attribute_line(word_origin(), e.origin);
    lemma_attribute_line(word_commit(), e.commit);
    lemma_attribute_line(word_date(), e.date);
    match e.reference {
        Some(r) => {
            lemma_attribute_line(word_ref(), r);
        },
        None => {},
    }
    assert(is_plain_line(Seq::<char>::empty()));
}

proof fn lemma_entries_lines_plain(es: Seq<SpecEntry>)
    requires
        forall|k: int| 0 <= k < es.len() ==> is_writable_entry(#[trigger] es[k]),
    ensures
        forall|j: int|
            0 <= j < entries_lines(es).len() ==> is_plain_line(#[trigger] entries_lines(es)[j]),
    decreases es.len(),
{
    if es.len() > 0 {
        let pre = es.drop_last();
        assert forall|k: int| 0 <= k < pre.len() implies is_writable_entry(#[trigger] pre[k]) by {
            assert(pre[k] == es[k]);
        }
        lemma_entries_lines_plain(pre);
        assert(is_writable_entry(es[es.len() - 1]));
        lemma_entry_lines_plain(es.last());
        let lp = entries_lines(pre);
        let le = entry_lines(es.last());
        assert forall|j: int|
            0 <= j < entries_lines(es).len() implies is_plain_line(
            #[trigger] entries_lines(es)[j],
        ) by {
            if j < lp.len() {
                assert(entries_lines(es)[j] == lp[j]);
            } else {
                assert(entries_lines(es)[j] == le[j - lp.len()]);
            }
        }
    }
}

/// The closing line is plain and ends the manifest.
proof fn lemma_trailer()
    ensures
        is_plain_line(trailer_line()),
        trailer_line().len() > 0,
        !is_ws(trailer_line()[0]),
        trim(trailer_line()) == trailer_line(),
        has_ws(trim(trailer_line())),
{
    reveal_strlit("Managed by marmita(1).  Use 'marmita update' to refresh.");
    let t = trailer_line();
    assert(t.len() == 56);
    assert(t[0] == 'M');
    assert(t[55] == '.');
    assert(t[7] == ' ');
    assert(!is_ws(t.last()));
    assert forall|i: int| 0 <= i < t.len() implies t[i] != '\n' by {}
}

/// Whatever writable entries the writer writes, in whatever order, the reader
/// reads back: the same entries in the same order.
pub proof fn lemma_parse_format_roundtrip(es: Seq<SpecEntry>)
    requires
        forall|k: int| 0 <= k < es.len() ==> is_writable_entry(#[trigger] es[k]),
    ensures
        spec_parse_vendor(vendor_text(es)) == Ok::<Seq<SpecEntry>, ParseFailure>(es),
{
    let ls = manifest_lines(es);
    let el = entries_lines(es);
    lemma_entries_lines_plain(es);
    lemma_trailer();
    assert forall|j: int| 0 <= j < ls.len() implies is_plain_line(#[trigger] ls[j]) by {
        if j < el.len() {
            assert(ls[j] == el[j]);
        } else {
            assert(ls[j] == trailer_line());
        }
    }
    lemma_lines_of_join(ls);
    assert(ls.subrange(0, el.len() as int) =~= el);
    lemma_parse_entries(ls, 0, seq![], es);
    assert(Seq::<SpecEntry>::empty() + es =~= es);
    assert(ls[el.len() as int] == trailer_line());
    assert(parse_from(ls, el.len() as int, None, es) == Ok::<Seq<SpecEntry>, ParseFailure>(es));
}

proof fn lemma_no_newline_trim_start(x: Seq<char>)
    requires
        no_newline(x),
    ensures
        no_newline(trim_start(x)),
    decreases x.len(),
{
    if x.len() > 0 && is_ws(x[0]) {
        assert forall|i: int| 0 <= i < x.drop_first().len() implies x.drop_first()[i] != '\n' by {
            assert(x.drop_first()[i] == x[i + 1]);
        }
        lemma_no_newline_trim_start(x.drop_first());
    }
}

/// Trimming the end keeps a prefix.
proof fn lemma_trim_end_prefix(x: Seq<char>)
    ensures
        trim_end(x).len() <= x.len(),
        trim_end(x) == x.take(trim_end(x).len() as int),
        trim_end(x).len() > 0 ==> !is_ws(trim_end(x).last()),
    decreases x.len(),
{
    if x.len() > 0 && is_ws(x.last()) {
        lemma_trim_end_prefix(x.drop_last());
        assert(x.drop_last().take(trim_end(x).len() as int) =~= x.take(trim_end(x).len() as int));
    } else {
        assert(x.take(x.len() as int) =~= x);
    }
}

/// Trimming twice trims as much as trimming once; a trimmed text stays on one line.
proof fn lemma_trim_value(x: Seq<char>)
    requires
        no_newline(x),
    ensures
        is_field_value(trim(x)),
{
    let y = trim_start(x);
    let z = trim_end(y);
    lemma_no_newline_trim_start(x);
    lemma_trim_end_prefix(y);
    lemma_trim_start_shorter(x);
    if y.len() > 0 && is_ws(y[0]) {
        assert(false) by {
            lemma_trim_start_first(x);
        }
    }
    assert forall|i: int| 0 <= i < z.len() implies z[i] != '\n' by {
        assert(z[i] == y[i]);
    }
    if z.len() > 0 {
        assert(z[0] == y[0]);
        lemma_trim_start_keeps(z);
        assert(trim_end(z) == z);
    } else {
        assert(trim_start(z) == z);
    }
}

proof fn lemma_trim_start_first(x: Seq<char>)
    ensures
        trim_start(x).len() > 0 ==> !is_ws(trim_start(x)[0]),
    decreases x.len(),
{
    if x.len() > 0 && is_ws(x[0]) {
        lemma_trim_start_first(x.drop_first());
    }
}

proof fn lemma_strip_cr_no_newline(l: Seq<char>)
    requires
        no_newline(l),
    ensures
        no_newline(strip_cr(l)),
{
    if l.len() > 0 && l.last() == '\r' {
        assert forall|i: int| 0 <= i < l.drop_last().len() implies l.drop_last()[i] != '\n' by {
            assert(l.drop_last()[i] == l[i]);
        }
    }
}

/// No line holds a line feed.
proof fn lemma_lines_no_newline(t: Seq<char>)
    ensures
        forall|j: int| 0 <= j < lines(t).len() ==> no_newline(#[trigger] lines(t)[j]),
    decreases t.len(),
{
    if t.len() > 0 {
        let k = find_char(t, '\n');
        crate::text::lemma_find_char(t, '\n');
        if k < t.len() {
            assert forall|i: int| 0 <= i < t.take(k).len() implies t.take(k)[i] != '\n' by {
                assert(t.take(k)[i] == t[i]);
            }
            lemma_strip_cr_no_newline(t.take(k));
            lemma_lines_no_newline(t.skip(k + 1));
            let rest = lines(t.skip(k + 1));
            assert forall|j: int| 0 <= j < lines(t).len() implies no_newline(#[trigger] lines(t)[j]) by {
                if j > 0 {
                    assert(lines(t)[j] == rest[j - 1]);
                }
            }
        }
    }
}

/// An entry being read: a name of one word, and attributes that are either not
/// read yet or read as values that the writer can write.
spec fn is_partial_entry(e: SpecEntry) -> bool {
    &&& e.file.len() > 0
    &&& !has_ws(e.file)
    &&& (e.origin.len() == 0 || is_field_value(e.origin))
    &&& (e.commit.len() == 0 || is_field_value(e.commit))
    &&& (e.date.len() == 0 || is_field_value(e.date))
    &&& (e.reference matches Some(r) ==> is_field_value(r))
}

spec fn all_writable(es: Seq<SpecEntry>) -> bool {
    forall|k: int| 0 <= k < es.len() ==> is_writable_entry(#[trigger] es[k])
}

proof fn lemma_flush_writable(cur: Option<SpecEntry>, out: Seq<SpecEntry>, n: nat)
    requires
        all_writable(out),
        cur matches Some(e) ==> is_partial_entry(e),
    ensures
        flush(cur, out, n) matches Ok(o) ==> all_writable(o),
{
    if let Some(e) = cur {
        if flush(cur, out, n) is Ok {
            assert forall|k: int| 0 <= k < out.push(e).len() implies is_writable_entry(
                #[trigger] out.push(e)[k],
            ) by {
                if k < out.len() {
                    assert(out.push(e)[k] == out[k]);
                }
            }
        }
    }
}

proof fn lemma_parse_from_writable(
    ls: Seq<Seq<char>>,
    i: int,
    cur: Option<SpecEntry>,
    out: Seq<SpecEntry>,
)
    requires
        forall|j: int| 0 <= j < ls.len() ==> no_newline(#[trigger] ls[j]),
        all_writable(out),
        cur matches Some(e) ==> is_partial_entry(e),
    ensures
        parse_from(ls, i, cur, out) matches Ok(es) ==> all_writable(es),
    decreases ls.len() - i,
{
    if i < 0 || i >= ls.len() {
        lemma_flush_writable(cur, out, 0);
    } else {
        let raw = ls[i];
        let lineno = (i + 1) as nat;
        lemma_flush_writable(cur, out, lineno);
        if trim(raw).len() == 0 {
            if let Ok(o) = flush(cur, out, lineno) {
                lemma_parse_from_writable(ls, i + 1, None, o);
            }
        } else if !is_ws(raw[0]) {
            if let Ok(o) = flush(cur, out, lineno) {
                if !has_ws(trim(raw)) {
                    lemma_parse_from_writable(ls, i + 1, Some(new_entry(trim(raw))), o);
                }
            }
        } else {
            let line = trim_start(raw);
            let k = find_char(line, ':');
            if k < line.len() {
                if let Some(e) = cur {
                    let key = trim(line.take(k));
                    let val = trim(line.skip(k + 1));
                    lemma_no_newline_trim_start(raw);
                    crate::text::lemma_find_char(line, ':');
                    assert(no_newline(raw));
                    let tail = line.skip(k + 1);
                    assert forall|q: int| 0 <= q < tail.len() implies #[trigger] tail[q] != '\n' by {
                        assert(tail[q] == line[k + 1 + q]);
                    }
                    lemma_trim_value(line.skip(k + 1));
                    if let Some(e2) = set_attribute(e, key, val) {
                        lemma_parse_from_writable(ls, i + 1, Some(e2), out);
                    }
                }
            }
        }
    }
}

/// Every entry that the reader accepts, the writer can write: a manifest read
/// and written again reads back as the same entries.
pub proof fn lemma_reread_is_stable(text: Seq<char>)
    ensures
        spec_parse_vendor(text) matches Ok(es) ==> (forall|k: int|
            0 <= k < es.len() ==> is_writable_entry(#[trigger] es[k])) && spec_parse_vendor(
            vendor_text(es),
        ) == Ok::<Seq<SpecEntry>, ParseFailure>(es),
{
    lemma_lines_no_newline(text);
    lemma_parse_from_writable(lines(text), 0, None, seq![]);
    if let Ok(es) = spec_parse_vendor(text) {
        lemma_parse_format_roundtrip(es);
    }
}

/// A text that ends a line (or is empty) splits apart from what follows it.
proof fn lemma_lines_append(a: Seq<char>, b: Seq<char>)
    requires
        a.len() == 0 || a.last() == '\n',
    ensures
        lines(a + b) == lines(a) + lines(b),
    decreases a.len(),
{
    if a.len() == 0 {
        assert(a + b =~= b);
        assert(lines(a) + lines(b) =~= lines(b));
    } else {
        let k = find_char(a, '\n');
        crate::text::lemma_find_char(a, '\n');
        if k >= a.len() {
            assert(a[a.len() - 1] != '\n');
        }
        let ab = a + b;
        assert forall|j: int| 0 <= j < k implies ab[j] != '\n' by {
            assert(ab[j] == a[j]);
        }
        assert(ab[k] == a[k]);
        lemma_find_char_unique(ab, '\n', k);
        assert(ab.take(k) =~= a.take(k));
        assert(ab.skip(k + 1) =~= a.skip(k + 1) + b);
        let rest = a.skip(k + 1);
        if rest.len() > 0 {
            assert(rest.last() == a.last());
        }
        lemma_lines_append(rest, b);
        assert(lines(ab) =~= lines(a) + lines(b));
    }
}

proof fn lemma_join_lines_ends(ls: Seq<Seq<char>>)
    ensures
        join_lines(ls).len() == 0 || join_lines(ls).last() == '\n',
{
}

/// A manifest that marmita wrote splits into the lines of its entries, then
/// the closing line, then the lines of whatever follows it.
proof fn lemma_vendor_text_lines(es: Seq<SpecEntry>, s: Seq<char>)
    ensures
        lines(vendor_text(es) + s) == lines(join_lines(entries_lines(es))) + seq![trailer_line()]
            + lines(s),
        lines(vendor_text(es)) == lines(join_lines(entries_lines(es))) + seq![trailer_line()],
{
    let x = join_lines(entries_lines(es));
    let t = trailer_line();
    lemma_join_lines_add(entries_lines(es), seq![t]);
    assert(seq![t].drop_last() =~= Seq::<Seq<char>>::empty());
    assert(join_lines(Seq::<Seq<char>>::empty()) == Seq::<char>::empty());
    assert(join_lines(seq![t]) =~= t + seq!['\n']);
    lemma_join_lines_ends(entries_lines(es));
    lemma_trailer();
    assert(strip_cr(t) == t);
    assert(vendor_text(es) + s =~= x + (t + seq!['\n'] + s));
    lemma_lines_append(x, t + seq!['\n'] + s);
    lemma_lines_cons(t, s);
    assert(vendor_text(es) =~= x + (t + seq!['\n'] + Seq::<char>::empty()));
    lemma_lines_append(x, t + seq!['\n'] + Seq::<char>::empty());
    lemma_lines_cons(t, Seq::<char>::empty());
    assert(lines(Seq::<char>::empty()) == Seq::<Seq<char>>::empty());
    assert(lines(vendor_text(es)) =~= lines(x) + seq![t]);
    assert(lines(vendor_text(es) + s) =~= lines(x) + seq![t] + lines(s));
}

/// The reader never reads past the closing line.
proof fn lemma_parse_stops_at_trailer(
    ls1: Seq<Seq<char>>,
    ls2: Seq<Seq<char>>,
    i: int,
    cur: Option<SpecEntry>,
    out: Seq<SpecEntry>,
)
    requires
        ls1.len() > 0,
        ls1.last() == trailer_line(),
        0 <= i < ls1.len(),
    ensures
        parse_from(ls1 + ls2, i, cur, out) == parse_from(ls1, i, cur, out),
    decreases ls1.len() - i,
{
    lemma_trailer();
    let ls = ls1 + ls2;
    let raw = ls1[i];
    let lineno = (i + 1) as nat;
    assert(ls[i] == raw);
    if i + 1 == ls1.len() {
        assert(raw == trailer_line());
    } else if trim(raw).len() == 0 {
        if let Ok(o) = flush(cur, out, lineno) {
            lemma_parse_stops_at_trailer(ls1, ls2, i + 1, None, o);
        }
    } else if !is_ws(raw[0]) {
        if let Ok(o) = flush(cur, out, lineno) {
            if !has_ws(trim(raw)) {
                lemma_parse_stops_at_trailer(ls1, ls2, i + 1, Some(new_entry(trim(raw))), o);
            }
        }
    } else {
        let line = trim_start(raw);
        let k = find_char(line, ':');
        if k < line.len() {
            if let Some(e) = cur {
                if let Some(e2) = set_attribute(e, trim(line.take(k)), trim(line.skip(k + 1))) {
                    lemma_parse_stops_at_trailer(ls1, ls2, i + 1, Some(e2), out);
                }
            }
        }
    }
}

/// Whatever follows a manifest that marmita wrote, the reader ignores: its
/// closing line ends the reading.
pub proof fn lemma_appended_text_ignored(es: Seq<SpecEntry>, s: Seq<char>)
    ensures
        spec_parse_vendor(vendor_text(es) + s) == spec_parse_vendor(vendor_text(es)),
{
    lemma_vendor_text_lines(es, s);
    let ls1 = lines(join_lines(entries_lines(es))) + seq![trailer_line()];
    assert(ls1.last() == trailer_line());
    lemma_parse_stops_at_trailer(ls1, lines(s), 0, None, seq![]);
}

proof fn lemma_trim_start_push(s: Seq<char>, c: char)
    ensures
        trim_start(s.push(c)) == if trim_start(s).len() > 0 {
            trim_start(s).push(c)
        } else {
            trim_start(seq![c])
        },
    decreases s.len(),
{
    if s.len() == 0 {
        assert(s.push(c) =~= seq![c]);
    } else if is_ws(s[0]) {
        assert(s.push(c)[0] == s[0]);
        assert(s.push(c).drop_first() =~= s.drop_first().push(c));
        lemma_trim_start_push(s.drop_first(), c);
    } else {
        assert(s.push(c)[0] == s[0]);
    }
}

/// A carriage return at the end of a line changes nothing that is trimmed.
proof fn lemma_trim_push_cr(s: Seq<char>)
    ensures
        trim(s.push('\r')) == trim(s),
{
    lemma_trim_start_push(s, '\r');
    let y = trim_start(s);
    if y.len() > 0 {
        assert(y.push('\r').drop_last() =~= y);
    } else {
        assert(seq!['\r'].drop_first() =~= Seq::<char>::empty());
        assert(trim_start(seq!['\r']) == trim_start(Seq::<char>::empty()));
    }
}

/// What the reader takes from a line it takes as well from that line with a
/// carriage return after it.
proof fn lemma_cr_line(y: Seq<char>)
    ensures
        ({
            let x = y.push('\r');
            &&& trim(x) == trim(y)
            &&& trim(y).len() > 0 ==> y.len() > 0 && x[0] == y[0]
            &&& (trim(y).len() > 0 && is_ws(y[0])) ==> ({
                let lx = trim_start(x);
                let ly = trim_start(y);
                let k = find_char(ly, ':');
                &&& find_char(lx, ':') < lx.len() <==> k < ly.len()
                &&& k < ly.len() ==> find_char(lx, ':') == k && trim(lx.take(k)) == trim(
                    ly.take(k),
                ) && trim(lx.skip(k + 1)) == trim(ly.skip(k + 1))
            })
        }),
{
    let x = y.push('\r');
    lemma_trim_push_cr(y);
    if trim(y).len() > 0 {
        if y.len() == 0 {
            assert(trim(y) == Seq::<char>::empty());
        }
        assert(x[0] == y[0]);
        if is_ws(y[0]) {
            let ly = trim_start(y);
            if ly.len() == 0 {
                assert(trim(y) == trim_end(ly));
            }
            lemma_trim_start_push(y, '\r');
            let lx = trim_start(x);
            assert(lx == ly.push('\r'));
            let k = find_char(ly, ':');
            crate::text::lemma_find_char(ly, ':');
            if k < ly.len() {
                assert forall|j: int| 0 <= j < k implies lx[j] != ':' by {
                    assert(lx[j] == ly[j]);
                }
                assert(lx[k] == ly[k]);
                lemma_find_char_unique(lx, ':', k);
                assert(lx.take(k) =~= ly.take(k));
                assert(lx.skip(k + 1) =~= ly.skip(k + 1).push('\r'));
                lemma_trim_push_cr(ly.skip(k + 1));
            } else {
                assert forall|j: int| 0 <= j < lx.len() implies lx[j] != ':' by {
                    if j < ly.len() {
                        assert(lx[j] == ly[j]);
                    }
                }
                lemma_find_char_unique(lx, ':', lx.len() as int);
            }
        }
    }
}

/// Two lists of lines that differ at most in a carriage return that ends the
/// last line read the same.
proof fn lemma_parse_cr_last(
    ls1: Seq<Seq<char>>,
    ls2: Seq<Seq<char>>,
    i: int,
    cur: Option<SpecEntry>,
    out: Seq<SpecEntry>,
)
    requires
        ls1.len() == ls2.len(),
        ls1.len() > 0,
        forall|j: int| 0 <= j < ls1.len() - 1 ==> ls1[j] == ls2[j],
        ls1.last() == ls2.last() || ls1.last() == ls2.last().push('\r'),
    ensures
        parse_from(ls1, i, cur, out) == parse_from(ls2, i, cur, out),
    decreases ls1.len() - i,
{
    if 0 <= i < ls1.len() {
        let x = ls1[i];
        let y = ls2[i];
        let lineno = (i + 1) as nat;
        if x != y {
            assert(i == ls1.len() - 1);
            lemma_cr_line(y);
        }
        if trim(y).len() == 0 {
            if let Ok(o) = flush(cur, out, lineno) {
                lemma_parse_cr_last(ls1, ls2, i + 1, None, o);
            }
        } else if !is_ws(y[0]) {
            if let Ok(o) = flush(cur, out, lineno) {
                if !has_ws(trim(y)) {
                    lemma_parse_cr_last(ls1, ls2, i + 1, Some(new_entry(trim(y))), o);
                }
            }
        } else {
            let line = trim_start(y);
            let k = find_char(line, ':');
            if k < line.len() {
                if let Some(e) = cur {
                    if let Some(e2) = set_attribute(e, trim(line.take(k)), trim(line.skip(k + 1))) {
                        lemma_parse_cr_last(ls1, ls2, i + 1, Some(e2), out);
                    }
                }
            }
        }
    }
}

/// A final `\n` after an unterminated last line makes a last line without a
/// closing carriage return.
proof fn lemma_lines_push_newline(t: Seq<char>)
    requires
        t.len() > 0,
        t.last() != '\n',
    ensures
        lines(t).len() > 0,
        lines(t.push('\n')) == lines(t).drop_last().push(strip_cr(lines(t).last())),
    decreases t.len(),
{
    let tn = t.push('\n');
    let k = find_char(t, '\n');
    crate::text::lemma_find_char(t, '\n');
    assert forall|j: int| 0 <= j < k implies tn[j] != '\n' by {
        assert(tn[j] == t[j]);
    }
    if k < t.len() {
        assert(tn[k] == t[k]);
        lemma_find_char_unique(tn, '\n', k);
        assert(tn.take(k) =~= t.take(k));
        let rest = t.skip(k + 1);
        assert(k != t.len() - 1);
        assert(rest.last() == t.last());
        assert(tn.skip(k + 1) =~= rest.push('\n'));
        lemma_lines_push_newline(rest);
        let a = seq![strip_cr(t.take(k))];
        assert(lines(t) == a + lines(rest));
        assert(lines(tn) == a + lines(rest.push('\n')));
        assert(lines(t).last() == lines(rest).last());
        assert(lines(tn) =~= lines(t).drop_last().push(strip_cr(lines(t).last())));
    } else {
        lemma_find_char_unique(tn, '\n', t.len() as int);
        assert(tn.take(t.len() as int) =~= t);
        assert(tn.skip(t.len() as int + 1) =~= Seq::<char>::empty());
        assert(lines(Seq::<char>::empty()) == Seq::<Seq<char>>::empty());
        assert(lines(t) == seq![t]);
        assert(lines(tn) =~= lines(t).drop_last().push(strip_cr(lines(t).last())));
    }
}

/// The reader reads the last line of a text whether or not a newline ends it:
/// a hand-edited manifest without a final newline reads as the same manifest
/// with one.
pub proof fn lemma_final_newline_optional(t: Seq<char>)
    requires
        t.len() == 0 || t.last() != '\n',
    ensures
        spec_parse_vendor(t) == spec_parse_vendor(t.push('\n')),
{
    if t.len() == 0 {
        let tn = t.push('\n');
        assert(tn =~= seq!['\n']);
        lemma_find_char_unique(tn, '\n', 0);
        assert(tn.take(0) =~= Seq::<char>::empty());
        assert(tn.skip(1) =~= Seq::<char>::empty());
        assert(lines(Seq::<char>::empty()) == Seq::<Seq<char>>::empty());
        assert(strip_cr(Seq::<char>::empty()) == Seq::<char>::empty());
        assert(lines(tn) =~= seq![Seq::<char>::empty()]);
        assert(trim(Seq::<char>::empty()).len() == 0);
        let ls = lines(tn);
        assert(ls[0] == Seq::<char>::empty());
        assert(parse_from(ls, 1, None, seq![]) == Ok::<Seq<SpecEntry>, ParseFailure>(seq![]));
        assert(lines(t) == Seq::<Seq<char>>::empty());
    } else {
        lemma_lines_push_newline(t);
        let ls1 = lines(t);
        let ls2 = lines(t.push('\n'));
        assert forall|j: int| 0 <= j < ls1.len() - 1 implies ls1[j] == ls2[j] by {
            assert(ls2[j] == ls1.drop_last()[j]);
        }
        let l = ls1.last();
        if l.len() > 0 && l.last() == '\r' {
            assert(l =~= strip_cr(l).push('\r'));
        }
        assert(ls2.last() == strip_cr(l));
        lemma_parse_cr_last(ls1, ls2, 0, None, seq![]);
    }
}

} // verus!

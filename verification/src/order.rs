//! The order of the manifest: entries sorted by file name, stably.
use vstd::prelude::*;

use crate::manifest::{entries_view, format_vendor, vendor_text, Entry, SpecEntry};
use crate::text::chars_of;

verus! {

/// Lexicographic order of texts, character by character: the order of `str`,
/// since UTF-8 keeps the order of code points.
pub open spec fn chars_lt(a: Seq<char>, b: Seq<char>) -> bool
    decreases a.len(),
{
    if b.len() == 0 {
        false
    } else if a.len() == 0 {
        true
    } else if a[0] != b[0] {
        a[0] < b[0]
    } else {
        chars_lt(a.drop_first(), b.drop_first())
    }
}

/// `a` comes before `b` or equals it.
pub open spec fn chars_le(a: Seq<char>, b: Seq<char>) -> bool {
    !chars_lt(b, a)
}

/// The order is strict and total: of two different texts exactly one comes first.
pub proof fn lemma_chars_lt_total(a: Seq<char>, b: Seq<char>)
    ensures
        !(chars_lt(a, b) && chars_lt(b, a)),
        a != b ==> chars_lt(a, b) || chars_lt(b, a),
        !chars_lt(a, a),
    decreases a.len(),
{
    if a.len() > 0 && b.len() > 0 && a[0] == b[0] {
        lemma_chars_lt_total(a.drop_first(), b.drop_first());
        if a != b {
            assert(a.drop_first() != b.drop_first()) by {
                if a.drop_first() == b.drop_first() {
                    assert forall|i: int| 0 <= i < a.len() implies a[i] == b[i] by {
                        if i > 0 {
                            assert(a[i] == a.drop_first()[i - 1]);
                            assert(b[i] == b.drop_first()[i - 1]);
                        }
                    }
                    assert(a =~= b);
                }
            }
        }
    } else if a.len() == 0 && b.len() == 0 {
        assert(a =~= b);
    } else if a.len() > 0 && b.len() > 0 {
        assert(a[0] < b[0] || b[0] < a[0]);
    }
    if a.len() > 0 {
        lemma_chars_lt_total(a.drop_first(), a.drop_first());
    }
}

/// The order is transitive.
pub proof fn lemma_chars_lt_transitive(a: Seq<char>, b: Seq<char>, c: Seq<char>)
    requires
        chars_lt(a, b),
        chars_lt(b, c),
    ensures
        chars_lt(a, c),
    decreases a.len(),
{
    if a.len() > 0 && a[0] == b[0] && b[0] == c[0] {
        lemma_chars_lt_transitive(a.drop_first(), b.drop_first(), c.drop_first());
    }
}

proof fn lemma_lt_le(a: Seq<char>, b: Seq<char>, c: Seq<char>)
    requires
        chars_lt(a, b),
        chars_le(b, c),
    ensures
        chars_lt(a, c),
{
    lemma_chars_lt_total(b, c);
    if b != c {
        lemma_chars_lt_transitive(a, b, c);
    }
}

/// Whether `a` comes before `b`.
pub fn text_lt(a: &String, b: &String) -> (r: bool)
    ensures
        r == chars_lt(a@, b@),
{
    let ca = chars_of(a.as_str());
    let cb = chars_of(b.as_str());
    let mut i: usize = 0;
    assert(ca@.skip(0) =~= ca@);
    assert(cb@.skip(0) =~= cb@);
    while i < ca.len() && i < cb.len() && ca[i] == cb[i]
        invariant
            i <= ca@.len(),
            i <= cb@.len(),
            chars_lt(ca@, cb@) == chars_lt(ca@.skip(i as int), cb@.skip(i as int)),
        decreases ca@.len() - i,
    {
        assert(ca@.skip(i as int).drop_first() =~= ca@.skip(i + 1));
        assert(cb@.skip(i as int).drop_first() =~= cb@.skip(i + 1));
        i = i + 1;
    }
    if i == cb.len() {
        false
    } else if i == ca.len() {
        true
    } else {
        ca[i] < cb[i]
    }
}

/// No entry comes before one that stands in front of it.
pub open spec fn sorted_by_file(es: Seq<SpecEntry>) -> bool {
    forall|i: int, j: int| 0 <= i < j < es.len() ==> chars_le(es[i].file, es[j].file)
}

/// The entries for file `f`, in their order.
pub open spec fn with_file(es: Seq<SpecEntry>, f: Seq<char>) -> Seq<SpecEntry> {
    es.filter(|e: SpecEntry| e.file == f)
}

proof fn lemma_with_file_push(es: Seq<SpecEntry>, x: SpecEntry, f: Seq<char>)
    ensures
        with_file(es.push(x), f) == if x.file == f {
            with_file(es, f).push(x)
        } else {
            with_file(es, f)
        },
{
    reveal(Seq::filter);
    assert(es.push(x).drop_last() =~= es);
}

proof fn lemma_with_file_add(a: Seq<SpecEntry>, b: Seq<SpecEntry>, f: Seq<char>)
    ensures
        with_file(a + b, f) == with_file(a, f) + with_file(b, f),
{
    Seq::filter_distributes_over_add(a, b, |e: SpecEntry| e.file == f);
}

proof fn lemma_with_file_none(es: Seq<SpecEntry>, f: Seq<char>)
    requires
        forall|i: int| 0 <= i < es.len() ==> es[i].file != f,
    ensures
        with_file(es, f) == Seq::<SpecEntry>::empty(),
    decreases es.len(),
{
    reveal(Seq::filter);
    if es.len() > 0 {
        assert forall|i: int| 0 <= i < es.drop_last().len() implies es.drop_last()[i].file != f by {
            assert(es.drop_last()[i] == es[i]);
        }
        lemma_with_file_none(es.drop_last(), f);
    }
    assert(with_file(es, f) =~= Seq::<SpecEntry>::empty());
}

/// Sorts the entries by file name, keeping in their order those of one name
/// (what `sort_by` on the file name does).
pub fn sort_entries(entries: &mut Vec<Entry>)
    ensures
        sorted_by_file(entries_view(final(entries)@)),
        forall|f: Seq<char>|
            #[trigger] with_file(entries_view(final(entries)@), f) == with_file(
                entries_view(old(entries)@),
                f,
            ),
{
    let mut input: Vec<Entry> = Vec::new();
    std::mem::swap(&mut input, entries);
    let ghost orig = entries_view(input@);
    let ghost n = orig.len();
    assert(entries_view(entries@) =~= orig.take(0));
    assert(orig.skip(0) =~= orig);
    while input.len() > 0
        invariant
            orig.len() == n,
            input@.len() <= n,
            entries_view(input@) == orig.skip(n - input@.len()),
            sorted_by_file(entries_view(entries@)),
            forall|f: Seq<char>|
                #[trigger] with_file(entries_view(entries@), f) == with_file(
                    orig.take(n - input@.len()),
                    f,
                ),
        decreases input@.len(),
    {
        let ghost done = n - input@.len();
        let ghost before_in = input@;
        let x = input.remove(0);
        proof {
            assert(entries_view(before_in)[0] == before_in[0]@);
            assert(orig.skip(done)[0] == orig[done]);
            assert(x@ == orig[done]);
            assert forall|i: int| 0 <= i < input@.len() implies #[trigger] entries_view(input@)[i]
                == orig.skip(done + 1)[i] by {
                assert(input@[i] == before_in[i + 1]);
                assert(entries_view(before_in)[i + 1] == orig.skip(done)[i + 1]);
            }
            assert(entries_view(input@) =~= orig.skip(done + 1));
            assert(orig.take(done + 1) =~= orig.take(done).push(x@));
        }
        let ghost old_es = entries_view(entries@);
        let mut p: usize = 0;
        while p < entries.len() && !text_lt(&x.file, &entries[p].file)
            invariant
                p <= entries@.len(),
                old_es == entries_view(entries@),
                forall|q: int| 0 <= q < p ==> chars_le(old_es[q].file, x@.file),
            decreases entries@.len() - p,
        {
            p = p + 1;
        }
        let ghost xv = x@;
        entries.insert(p, x);
        proof {
            let es = entries_view(entries@);
            assert(es =~= old_es.take(p as int) + seq![xv] + old_es.skip(p as int));
            if p < old_es.len() {
                assert(chars_lt(xv.file, old_es[p as int].file));
            }
            assert forall|q: int| p <= q < old_es.len() implies chars_lt(xv.file, #[trigger] old_es[q].file) by {
                if q > p {
                    lemma_lt_le(xv.file, old_es[p as int].file, old_es[q].file);
                }
            }
            assert forall|i: int, j: int| 0 <= i < j < es.len() implies chars_le(
                es[i].file,
                es[j].file,
            ) by {
                if j < p {
                    assert(es[i] == old_es[i]);
                    assert(es[j] == old_es[j]);
                } else if i < p && j == p {
                } else if i < p && j > p {
                    assert(es[j] == old_es[j - 1]);
                } else if i == p {
                    assert(es[j] == old_es[j - 1]);
                    lemma_chars_lt_total(xv.file, old_es[j - 1].file);
                } else {
                    assert(es[i] == old_es[i - 1]);
                    assert(es[j] == old_es[j - 1]);
                }
            }
            assert forall|f: Seq<char>| #[trigger] with_file(es, f) == with_file(
                orig.take(n - input@.len()),
                f,
            ) by {
                lemma_with_file_add(old_es.take(p as int) + seq![xv], old_es.skip(p as int), f);
                lemma_with_file_add(old_es.take(p as int), seq![xv], f);
                lemma_with_file_add(old_es.take(p as int), old_es.skip(p as int), f);
                assert(old_es =~= old_es.take(p as int) + old_es.skip(p as int));
                lemma_with_file_push(orig.take(done), xv, f);
                assert(seq![xv] =~= Seq::<SpecEntry>::empty().push(xv));
                lemma_with_file_push(Seq::<SpecEntry>::empty(), xv, f);
                lemma_with_file_none(Seq::<SpecEntry>::empty(), f);
                if xv.file == f {
                    assert forall|i: int| 0 <= i < old_es.skip(p as int).len() implies old_es.skip(
                        p as int,
                    )[i].file != f by {
                        assert(old_es.skip(p as int)[i] == old_es[p + i]);
                        lemma_chars_lt_total(xv.file, old_es[p + i].file);
                    }
                    lemma_with_file_none(old_es.skip(p as int), f);
                }
            }
        }
    }
    proof {
        assert(orig.take(n as int) =~= orig);
    }
}

/// What `write_manifest` writes: the entries sorted by file name (stably),
/// then written out as the manifest.
pub fn render_manifest(entries: &mut Vec<Entry>) -> (text: String)
    ensures
        sorted_by_file(entries_view(final(entries)@)),
        forall|f: Seq<char>|
            #[trigger] with_file(entries_view(final(entries)@), f) == with_file(
                entries_view(old(entries)@),
                f,
            ),
        text@ == vendor_text(entries_view(final(entries)@)),
{
    sort_entries(entries);
    format_vendor(entries.as_slice())
}

} // verus!

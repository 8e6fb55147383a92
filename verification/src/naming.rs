//! Names: the file that a URL vendors, commit ids and their short form, usage.
use vstd::prelude::*;

use crate::text::{chars_of, push_char, string_of};
use vstd::utf8::{decode_utf8, encode_utf8, is_ascii_chars, is_char_boundary};
use vstd::string::StringSliceAdditionalSpecFns;

verus! {

/// A separator of URL segments: `/` or `:`.
pub open spec fn is_url_separator(c: char) -> bool {
    c == '/' || c == ':'
}

/// What follows the last `/` or `:` of `s` (all of `s` where there is none).
pub open spec fn last_segment(s: Seq<char>) -> Seq<char>
    decreases s.len(),
{
    if s.len() == 0 {
        s
    } else if is_url_separator(s.last()) {
        seq![]
    } else {
        last_segment(s.drop_last()).push(s.last())
    }
}

/// `.git`.
pub open spec fn git_suffix() -> Seq<char> {
    seq!['.', 'g', 'i', 't']
}

/// `s` without a final `.git`.
pub open spec fn strip_git(s: Seq<char>) -> Seq<char> {
    if s.len() >= 4 && s.skip(s.len() - 4) == git_suffix() {
        s.take(s.len() - 4)
    } else {
        s
    }
}

/// The file that `marmita add` names after a URL: its last segment, without a
/// final `.git`, with `.rs` appended.
pub open spec fn deduced_filename(url: Seq<char>) -> Seq<char> {
    strip_git(last_segment(url)) + seq!['.', 'r', 's']
}

proof fn lemma_last_segment_from(s: Seq<char>, k: int)
    requires
        0 <= k <= s.len(),
        forall|j: int| k <= j < s.len() ==> !is_url_separator(s[j]),
        k == 0 || is_url_separator(s[k - 1]),
    ensures
        last_segment(s) == s.skip(k),
    decreases s.len(),
{
    if s.len() > 0 {
        if k == s.len() {
            assert(s.skip(k) =~= Seq::<char>::empty());
        } else {
            assert(s.drop_last().len() == s.len() - 1);
            assert forall|j: int| k <= j < s.drop_last().len() implies !is_url_separator(
                s.drop_last()[j],
            ) by {
                assert(s.drop_last()[j] == s[j]);
            }
            if k > 0 {
                assert(s.drop_last()[k - 1] == s[k - 1]);
            }
            lemma_last_segment_from(s.drop_last(), k);
            assert(s.drop_last().skip(k).push(s.last()) =~= s.skip(k));
        }
    } else {
        assert(s.skip(k) =~= s);
    }
}

/// The deduced name keeps the whole last segment of the URL, of any length:
/// after a prefix that ends in `/` or `:` (or none), a segment `s` gives
/// `s.rs`, and `s.git` gives `s.rs` too.
pub proof fn lemma_deduced_keeps_segment(p: Seq<char>, s: Seq<char>)
    requires
        p.len() == 0 || p.last() == '/' || p.last() == ':',
        forall|i: int| 0 <= i < s.len() ==> s[i] != '/' && s[i] != ':',
    ensures
        !(s.len() >= 4 && s.skip(s.len() - 4) == seq!['.', 'g', 'i', 't']) ==> deduced_filename(p + s)
            == s + seq!['.', 'r', 's'],
        deduced_filename(p + s + seq!['.', 'g', 'i', 't']) == s + seq!['.', 'r', 's'],
{
    let u = p + s;
    assert forall|j: int| p.len() <= j < u.len() implies !is_url_separator(u[j]) by {
        assert(u[j] == s[j - p.len()]);
    }
    if p.len() > 0 {
        assert(u[p.len() - 1] == p.last());
    }
    lemma_last_segment_from(u, p.len() as int);
    assert(u.skip(p.len() as int) =~= s);
    let g = seq!['.', 'g', 'i', 't'];
    let v = p + s + g;
    assert forall|j: int| p.len() <= j < v.len() implies !is_url_separator(v[j]) by {
        if j < p.len() + s.len() {
            assert(v[j] == s[j - p.len()]);
        } else {
            assert(v[j] == g[j - p.len() - s.len()]);
        }
    }
    if p.len() > 0 {
        assert(v[p.len() - 1] == p.last());
    }
    lemma_last_segment_from(v, p.len() as int);
    let sg = v.skip(p.len() as int);
    assert(sg =~= s + g);
    assert(sg.skip(sg.len() - 4) =~= git_suffix());
    assert(sg.take(sg.len() - 4) =~= s);
}

/// The file name that a URL vendors by default (`.../jackson.git` gives `jackson.rs`).
pub fn deduce_filename(url: &str) -> (r: String)
    ensures
        r@ == deduced_filename(url@),
{
    let cs = chars_of(url);
    let n = cs.len();
    let mut k = n;
    while k > 0 && cs[k - 1] != '/' && cs[k - 1] != ':'
        invariant
            k <= n == cs@.len(),
            forall|j: int| k <= j < n ==> !is_url_separator(cs@[j]),
        decreases k,
    {
        k = k - 1;
    }
    proof {
        lemma_last_segment_from(cs@, k as int);
    }
    let ghost seg = cs@.skip(k as int);
    let mut end = n;
    if n - k >= 4 && cs[n - 4] == '.' && cs[n - 3] == 'g' && cs[n - 2] == 'i' && cs[n - 1] == 't' {
        end = n - 4;
        assert(seg.skip(seg.len() - 4) =~= git_suffix());
        assert(seg.take(seg.len() - 4) =~= cs@.subrange(k as int, end as int));
    } else {
        assert(seg =~= cs@.subrange(k as int, n as int));
        proof {
        if seg.len() >= 4 {
            assert(seg.skip(seg.len() - 4) != git_suffix()) by {
                if seg.skip(seg.len() - 4) == git_suffix() {
                    assert(seg.skip(seg.len() - 4)[0] == cs@[n - 4]);
                    assert(seg.skip(seg.len() - 4)[1] == cs@[n - 3]);
                    assert(seg.skip(seg.len() - 4)[2] == cs@[n - 2]);
                    assert(seg.skip(seg.len() - 4)[3] == cs@[n - 1]);
                }
            }
        }
        }
    }
    let mut r = string_of(cs.as_slice(), k, end);
    push_char(&mut r, '.');
    push_char(&mut r, 'r');
    push_char(&mut r, 's');
    assert(r@ =~= deduced_filename(url@));
    r
}

/// The hexadecimal digits.
pub open spec fn is_hex_digit(c: char) -> bool {
    ('0' <= c && c <= '9') || ('a' <= c && c <= 'f') || ('A' <= c && c <= 'F')
}

/// 7 to 40 hexadecimal digits: what a (possibly abbreviated) commit id looks like.
pub open spec fn is_oid_like(s: Seq<char>) -> bool {
    7 <= s.len() <= 40 && forall|i: int| 0 <= i < s.len() ==> is_hex_digit(#[trigger] s[i])
}

/// Whether `s` looks like a commit id rather than a branch or tag name.
/// (The text is ASCII whenever it is all hexadecimal, so counting characters
/// is counting bytes.)
pub fn looks_like_oid(s: &str) -> (r: bool)
    ensures
        r == is_oid_like(s@),
        r ==> s.spec_bytes().len() == s@.len(),
{
    let cs = chars_of(s);
    let mut i: usize = 0;
    while i < cs.len()
        invariant
            i <= cs@.len(),
            cs@ == s@,
            forall|j: int| 0 <= j < i ==> is_hex_digit(cs@[j]),
        decreases cs@.len() - i,
    {
        let c = cs[i];
        if !(('0' <= c && c <= '9') || ('a' <= c && c <= 'f') || ('A' <= c && c <= 'F')) {
            return false;
        }
        i = i + 1;
    }
    proof {
        assert(is_ascii_chars(s@));
        vstd::utf8::is_ascii_chars_encode_utf8(s@);
    }
    7 <= cs.len() && cs.len() <= 40
}

/// How many bytes of `commit`'s UTF-8 form its short form keeps: twelve, or
/// all of them where there are fewer.
pub open spec fn short_cut(commit: Seq<char>) -> int {
    let b = encode_utf8(commit);
    if b.len() < 12 {
        b.len() as int
    } else {
        12
    }
}

/// The cut falls between two characters (slicing there does not panic).
pub open spec fn can_shorten(commit: Seq<char>) -> bool {
    is_char_boundary(encode_utf8(commit), short_cut(commit))
}

/// The short form of a commit id: its first twelve bytes.
pub open spec fn short_text(commit: Seq<char>) -> Seq<char> {
    decode_utf8(encode_utf8(commit).take(short_cut(commit)))
}

/// The first twelve bytes of a commit id, or all of it where it is shorter:
/// the short form shown to users.
pub fn short(commit: &str) -> (r: &str)
    requires
        can_shorten(commit@),
    ensures
        r.spec_bytes() == commit.spec_bytes().take(short_cut(commit@)),
        r@ == short_text(commit@),
{
    let n = commit.as_bytes().len();
    let mid = if n < 12 { n } else { 12 };
    let (head, _) = commit.split_at(mid);
    proof {
        vstd::utf8::encode_utf8_decode_utf8(head@);
        assert(head.spec_bytes() =~= commit.spec_bytes().take(mid as int));
    }
    head
}

/// The usage text.
pub open spec fn usage_text() -> Seq<char> {
    "usage: marmita add [-r ref] <url> [file]\n       marmita update [file]\n       marmita rm <file>\n       marmita list\n       marmita -V"@
}

/// How marmita is used.
pub fn usage_str() -> (r: &'static str)
    ensures
        r@ == usage_text(),
{
    "usage: marmita add [-r ref] <url> [file]\n       marmita update [file]\n       marmita rm <file>\n       marmita list\n       marmita -V"
}

} // verus!

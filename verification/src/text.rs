//! Characters, trimming, searching and decimal numbers over `Seq<char>`.
use vstd::prelude::*;

verus! {

/// The Unicode `White_Space` property, which `char::is_whitespace` tests.
pub open spec fn is_ws(c: char) -> bool {
    let u = c as u32;
    u == 0x09 || u == 0x0A || u == 0x0B || u == 0x0C || u == 0x0D || u == 0x20 || u == 0x85
        || u == 0xA0 || u == 0x1680 || (0x2000 <= u && u <= 0x200A) || u == 0x2028 || u == 0x2029
        || u == 0x202F || u == 0x205F || u == 0x3000
}

/// Whether `c` is white space in the Unicode sense.
pub fn is_whitespace(c: char) -> (b: bool)
    ensures
        b == is_ws(c),
{
    let u = c as u32;
    u == 0x09 || u == 0x0A || u == 0x0B || u == 0x0C || u == 0x0D || u == 0x20 || u == 0x85
        || u == 0xA0 || u == 0x1680 || (0x2000 <= u && u <= 0x200A) || u == 0x2028 || u == 0x2029
        || u == 0x202F || u == 0x205F || u == 0x3000
}

/// Whether some character of `s` is white space.
pub open spec fn has_ws(s: Seq<char>) -> bool {
    exists|i: int| 0 <= i < s.len() && is_ws(#[trigger] s[i])
}

/// `s` without its leading white space.
pub open spec fn trim_start(s: Seq<char>) -> Seq<char>
    decreases s.len(),
{
    if s.len() > 0 && is_ws(s[0]) {
        trim_start(s.drop_first())
    } else {
        s
    }
}

/// `s` without its trailing white space.
pub open spec fn trim_end(s: Seq<char>) -> Seq<char>
    decreases s.len(),
{
    if s.len() > 0 && is_ws(s.last()) {
        trim_end(s.drop_last())
    } else {
        s
    }
}

/// `s` without white space at either end.
pub open spec fn trim(s: Seq<char>) -> Seq<char> {
    trim_end(trim_start(s))
}

/// The index of the first `c` in `s`, or the length of `s` where there is none.
pub open spec fn find_char(s: Seq<char>, c: char) -> int
    decreases s.len(),
{
    if s.len() == 0 {
        0
    } else if s[0] == c {
        0
    } else {
        1 + find_char(s.drop_first(), c)
    }
}

/// `find_char` names the first `c`, or the length where there is none.
pub proof fn lemma_find_char(s: Seq<char>, c: char)
    ensures
        0 <= find_char(s, c) <= s.len(),
        find_char(s, c) < s.len() ==> s[find_char(s, c)] == c,
        forall|j: int| 0 <= j < find_char(s, c) ==> s[j] != c,
    decreases s.len(),
{
    if s.len() > 0 && s[0] != c {
        lemma_find_char(s.drop_first(), c);
        assert forall|j: int| 0 <= j < find_char(s, c) implies s[j] != c by {
            if j > 0 {
                assert(s[j] == s.drop_first()[j - 1]);
            }
        }
    }
}

/// The first index at which `c` stands is what `find_char` names.
pub proof fn lemma_find_char_unique(s: Seq<char>, c: char, k: int)
    requires
        0 <= k <= s.len(),
        k < s.len() ==> s[k] == c,
        forall|j: int| 0 <= j < k ==> s[j] != c,
    ensures
        find_char(s, c) == k,
    decreases s.len(),
{
    if s.len() > 0 && k > 0 {
        assert(s[0] != c);
        assert forall|j: int| 0 <= j < k - 1 implies s.drop_first()[j] != c by {
            assert(s.drop_first()[j] == s[j + 1]);
        }
        lemma_find_char_unique(s.drop_first(), c, k - 1);
    }
}

/// `String::push`: appends one character.
#[verifier::external_body]
pub(crate) fn push_char(s: &mut String, c: char)
    ensures
        final(s)@ == old(s)@.push(c),
{
    s.push(c);
}

/// The characters of `s`, in order.
pub fn chars_of(s: &str) -> (v: Vec<char>)
    ensures
        v@ == s@,
{
    let mut v: Vec<char> = Vec::new();
    for c in it: s.chars()
        invariant
            v@ == it.seq().take(it.index() as int),
    {
        v.push(c);
    }
    v
}

/// The index at which `chars[lo..hi]` stops being white space.
pub fn skip_ws(chars: &[char], lo: usize, hi: usize) -> (i: usize)
    requires
        lo <= hi <= chars@.len(),
    ensures
        lo <= i <= hi,
        trim_start(chars@.subrange(lo as int, hi as int)) == chars@.subrange(i as int, hi as int),
{
    let mut i = lo;
    while i < hi && is_whitespace(chars[i])
        invariant
            lo <= i <= hi <= chars@.len(),
            trim_start(chars@.subrange(lo as int, hi as int)) == trim_start(
                chars@.subrange(i as int, hi as int),
            ),
        decreases hi - i,
    {
        assert(chars@.subrange(i as int, hi as int).drop_first() =~= chars@.subrange(
            i + 1,
            hi as int,
        ));
        i = i + 1;
    }
    i
}

/// The end of `chars[lo..hi]` once its trailing white space is dropped.
pub fn skip_ws_back(chars: &[char], lo: usize, hi: usize) -> (j: usize)
    requires
        lo <= hi <= chars@.len(),
    ensures
        lo <= j <= hi,
        trim_end(chars@.subrange(lo as int, hi as int)) == chars@.subrange(lo as int, j as int),
{
    let mut j = hi;
    while j > lo && is_whitespace(chars[j - 1])
        invariant
            lo <= j <= hi <= chars@.len(),
            trim_end(chars@.subrange(lo as int, hi as int)) == trim_end(
                chars@.subrange(lo as int, j as int),
            ),
        decreases j - lo,
    {
        assert(chars@.subrange(lo as int, j as int).drop_last() =~= chars@.subrange(
            lo as int,
            j - 1,
        ));
        j = j - 1;
    }
    j
}

/// The index of the first `c` in `chars[lo..hi]`, or `hi` where there is none.
pub fn find_in(chars: &[char], lo: usize, hi: usize, c: char) -> (k: usize)
    requires
        lo <= hi <= chars@.len(),
    ensures
        lo <= k <= hi,
        k - lo == find_char(chars@.subrange(lo as int, hi as int), c),
{
    let mut k = lo;
    while k < hi && chars[k] != c
        invariant
            lo <= k <= hi <= chars@.len(),
            forall|j: int| lo <= j < k ==> chars@[j] != c,
        decreases hi - k,
    {
        k = k + 1;
    }
    proof {
        lemma_find_char_unique(chars@.subrange(lo as int, hi as int), c, k - lo);
    }
    k
}

/// Whether some character of `chars[lo..hi]` is white space.
pub fn range_has_ws(chars: &[char], lo: usize, hi: usize) -> (b: bool)
    requires
        lo <= hi <= chars@.len(),
    ensures
        b == has_ws(chars@.subrange(lo as int, hi as int)),
{
    let mut k = lo;
    while k < hi
        invariant
            lo <= k <= hi <= chars@.len(),
            forall|j: int| lo <= j < k ==> !is_ws(chars@[j]),
        decreases hi - k,
    {
        if is_whitespace(chars[k]) {
            assert(chars@.subrange(lo as int, hi as int)[k - lo] == chars@[k as int]);
            return true;
        }
        k = k + 1;
    }
    assert forall|i: int| 0 <= i < hi - lo implies !is_ws(
        #[trigger] chars@.subrange(lo as int, hi as int)[i],
    ) by {
        assert(chars@.subrange(lo as int, hi as int)[i] == chars@[lo + i]);
    }
    false
}

/// Whether `chars[lo..hi]` spells `word`.
pub fn range_is(chars: &[char], lo: usize, hi: usize, word: &str) -> (b: bool)
    requires
        lo <= hi <= chars@.len(),
    ensures
        b == (chars@.subrange(lo as int, hi as int) == word@),
{
    let n = word.unicode_len();
    if n != hi - lo {
        return false;
    }
    let mut k: usize = 0;
    while k < n
        invariant
            n == word@.len(),
            n == hi - lo,
            lo <= hi <= chars@.len(),
            0 <= k <= n,
            forall|j: int| 0 <= j < k ==> chars@[lo + j] == word@[j],
        decreases n - k,
    {
        if chars[lo + k] != word.get_char(k) {
            assert(chars@.subrange(lo as int, hi as int)[k as int] != word@[k as int]);
            return false;
        }
        k = k + 1;
    }
    assert(chars@.subrange(lo as int, hi as int) =~= word@);
    true
}

/// Whether `s` spells `word`.
pub fn str_is(s: &str, word: &str) -> (b: bool)
    ensures
        b == (s@ == word@),
{
    let cs = chars_of(s);
    assert(cs@.subrange(0, cs@.len() as int) =~= s@);
    range_is(cs.as_slice(), 0, cs.len(), word)
}

/// The characters `chars[lo..hi]` as a string.
pub fn string_of(chars: &[char], lo: usize, hi: usize) -> (s: String)
    requires
        lo <= hi <= chars@.len(),
    ensures
        s@ == chars@.subrange(lo as int, hi as int),
{
    let mut s = String::new();
    let mut k = lo;
    while k < hi
        invariant
            lo <= k <= hi <= chars@.len(),
            s@ == chars@.subrange(lo as int, k as int),
        decreases hi - k,
    {
        push_char(&mut s, chars[k]);
        assert(chars@.subrange(lo as int, k + 1) =~= chars@.subrange(lo as int, k as int).push(
            chars@[k as int],
        ));
        k = k + 1;
    }
    s
}

/// The character of a decimal digit.
pub open spec fn digit_char(d: int) -> char {
    if d == 0 {
        '0'
    } else if d == 1 {
        '1'
    } else if d == 2 {
        '2'
    } else if d == 3 {
        '3'
    } else if d == 4 {
        '4'
    } else if d == 5 {
        '5'
    } else if d == 6 {
        '6'
    } else if d == 7 {
        '7'
    } else if d == 8 {
        '8'
    } else {
        '9'
    }
}

fn digit(d: u64) -> (c: char)
    requires
        d < 10,
    ensures
        c == digit_char(d as int),
{
    if d == 0 {
        '0'
    } else if d == 1 {
        '1'
    } else if d == 2 {
        '2'
    } else if d == 3 {
        '3'
    } else if d == 4 {
        '4'
    } else if d == 5 {
        '5'
    } else if d == 6 {
        '6'
    } else if d == 7 {
        '7'
    } else if d == 8 {
        '8'
    } else {
        '9'
    }
}

/// `n` written in decimal, without leading zeros.
pub open spec fn decimal(n: nat) -> Seq<char>
    decreases n,
{
    if n < 10 {
        seq![digit_char(n as int)]
    } else {
        decimal(n / 10).push(digit_char((n % 10) as int))
    }
}

/// `n` written in decimal, with zeros in front up to `width` characters.
pub open spec fn zero_padded(n: nat, width: nat) -> Seq<char> {
    let digits = decimal(n);
    if digits.len() < width {
        Seq::new((width - digits.len()) as nat, |i: int| '0') + digits
    } else {
        digits
    }
}

/// Appends `n` in decimal.
pub fn push_decimal(s: &mut String, n: u64)
    ensures
        final(s)@ == old(s)@ + decimal(n as nat),
    decreases n,
{
    if n >= 10 {
        push_decimal(s, n / 10);
    }
    push_char(s, digit(n % 10));
    proof {
        if n >= 10 {
            assert(old(s)@ + decimal(n as nat) =~= old(s)@ + decimal((n / 10) as nat) + seq![
                digit_char((n % 10) as int),
            ]);
        } else {
            assert(old(s)@ + decimal(n as nat) =~= old(s)@.push(digit_char((n % 10) as int)));
        }
    }
}

/// The number of decimal digits of `n`.
pub fn decimal_len(n: u64) -> (k: usize)
    ensures
        k == decimal(n as nat).len(),
        k <= 20,
    decreases n,
{
    proof {
        assert(pow10(20) == 100000000000000000000) by { reveal_with_fuel(pow10, 21); }
        lemma_decimal_len_le(n as nat, 20);
    }
    if n >= 10 {
        let k = decimal_len(n / 10);
        k + 1
    } else {
        1
    }
}

spec fn pow10(k: nat) -> nat
    decreases k,
{
    if k == 0 {
        1
    } else {
        10 * pow10((k - 1) as nat)
    }
}

proof fn lemma_decimal_len_le(n: nat, k: nat)
    requires
        k >= 1,
        n < pow10(k),
    ensures
        decimal(n).len() <= k,
    decreases k,
{
    if n >= 10 {
        assert(n / 10 < pow10((k - 1) as nat));
        lemma_decimal_len_le(n / 10, (k - 1) as nat);
    }
}

/// Appends `n` in decimal, with zeros in front up to `width` characters.
pub fn push_zero_padded(s: &mut String, n: u64, width: usize)
    ensures
        final(s)@ == old(s)@ + zero_padded(n as nat, width as nat),
{
    let k = decimal_len(n);
    let ghost start = s@;
    if k < width {
        let mut i = k;
        while i < width
            invariant
                k <= i <= width,
                s@ == start + Seq::new((i - k) as nat, |j: int| '0'),
            decreases width - i,
        {
            push_char(s, '0');
            assert(start + Seq::new((i + 1 - k) as nat, |j: int| '0') =~= (start + Seq::new(
                (i - k) as nat,
                |j: int| '0',
            )).push('0'));
            i = i + 1;
        }
    }
    let ghost mid = s@;
    push_decimal(s, n);
    proof {
        if k < width {
            assert(s@ =~= start + zero_padded(n as nat, width as nat));
        }
    }
}

} // verus!

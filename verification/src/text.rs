//! Character-level text utilities shared by the parser, the tokenizer and the renderers.
use vstd::prelude::*;

verus! {

broadcast use vstd::string::group_string_axioms;

/// What `char::is_alphanumeric` answers for a character (Unicode `Alphabetic` or `Numeric`).
pub uninterp spec fn spec_is_alphanumeric(c: char) -> bool;

/// Whether a character has the Unicode `White_Space` property, which is what
/// `char::is_whitespace` answers: U+0009 to U+000D, U+0020, U+0085, U+00A0, U+1680,
/// U+2000 to U+200A, U+2028, U+2029, U+202F, U+205F and U+3000.
#[verifier::opaque]
pub open spec fn spec_is_whitespace(c: char) -> bool {
    let n = c as u32;
    ||| 0x9 <= n <= 0xD
    ||| n == 0x20
    ||| n == 0x85
    ||| n == 0xA0
    ||| n == 0x1680
    ||| 0x2000 <= n <= 0x200A
    ||| n == 0x2028
    ||| n == 0x2029
    ||| n == 0x202F
    ||| n == 0x205F
    ||| n == 0x3000
}

/// What `str::to_lowercase` returns for a text (full Unicode lowercase mapping).
pub uninterp spec fn spec_lowercase(s: Seq<char>) -> Seq<char>;

/// Calls `char::is_alphanumeric`; the result is named `spec_is_alphanumeric`.
#[verifier::external_body]
pub(crate) fn is_alphanumeric(c: char) -> (r: bool)
    ensures
        r == spec_is_alphanumeric(c),
{
    c.is_alphanumeric()
}

/// Calls `char::is_whitespace`, which tells the `White_Space` characters (`spec_is_whitespace`).
#[verifier::external_body]
pub(crate) fn is_whitespace(c: char) -> (r: bool)
    ensures
        r == spec_is_whitespace(c),
{
    c.is_whitespace()
}

/// Calls `str::to_lowercase`; the result is named `spec_lowercase`. Each character becomes one
/// or more characters (its lowercase mapping can expand), so the result is never shorter.
#[verifier::external_body]
pub(crate) fn lowercase(s: &str) -> (r: String)
    ensures
        r@ == spec_lowercase(s@),
        r@.len() >= s@.len(),
{
    s.to_lowercase()
}

/// Calls `String::push`, which appends one character.
#[verifier::external_body]
pub(crate) fn push_char(s: &mut String, c: char)
    ensures
        final(s)@ == old(s)@.push(c),
{
    s.push(c);
}

/// The characters of a text, in order.
pub fn chars_of(s: &str) -> (v: Vec<char>)
    ensures
        v@ == s@,
{
    let mut v: Vec<char> = Vec::new();
    for c in it: s.chars()
        invariant
            v@ == it.seq().take(it.index() as int),
            it.seq() == s@,
    {
        v.push(c);
    }
    assert(v@ == s@);
    v
}

} // verus!

verus! {

/// A text built from characters.
pub fn string_of(s: &[char]) -> (r: String)
    ensures
        r@ == s@,
{
    let mut r = String::new();
    let mut i: usize = 0;
    while i < s.len()
        invariant
            i <= s.len(),
            r@ == s@.take(i as int),
        decreases s.len() - i,
    {
        push_char(&mut r, s[i]);
        i += 1;
        assert(r@ == s@.take(i as int));
    }
    assert(s@.take(s@.len() as int) == s@);
    r
}

/// Appends characters to a text.
pub fn push_chars(out: &mut String, s: &[char])
    ensures
        final(out)@ == old(out)@ + s@,
{
    let mut i: usize = 0;
    while i < s.len()
        invariant
            i <= s.len(),
            out@ == old(out)@ + s@.take(i as int),
        decreases s.len() - i,
    {
        push_char(out, s[i]);
        i += 1;
        assert(old(out)@ + s@.take(i as int) == (old(out)@ + s@.take(i - 1)).push(s@[i - 1]));
    }
    assert(s@.take(s@.len() as int) == s@);
}

/// Whether `pat` occurs in `s` starting at index `i`.
pub open spec fn matches_at(s: Seq<char>, pat: Seq<char>, i: int) -> bool {
    0 <= i && i + pat.len() <= s.len() && s.subrange(i, i + pat.len()) == pat
}

/// The first index at or after `from` where `pat` occurs in `s`.
pub open spec fn find_from(s: Seq<char>, pat: Seq<char>, from: int) -> Option<int>
    decreases s.len() + 1 - from,
{
    if from < 0 || from + pat.len() > s.len() {
        None
    } else if matches_at(s, pat, from) {
        Some(from)
    } else {
        find_from(s, pat, from + 1)
    }
}

/// The first index where `pat` occurs in `s`.
pub open spec fn find(s: Seq<char>, pat: Seq<char>) -> Option<int> {
    find_from(s, pat, 0)
}

/// Whether `pat` occurs anywhere in `s`.
pub open spec fn contains_seq(s: Seq<char>, pat: Seq<char>) -> bool {
    find(s, pat) is Some
}

pub open spec fn starts_with(s: Seq<char>, pat: Seq<char>) -> bool {
    matches_at(s, pat, 0)
}

/// `find_from` gives the first occurrence at or after `from`.
pub proof fn lemma_find_from(s: Seq<char>, pat: Seq<char>, from: int)
    requires
        0 <= from,
    ensures
        match find_from(s, pat, from) {
            Some(i) => from <= i && matches_at(s, pat, i)
                && forall|j: int| from <= j < i ==> !matches_at(s, pat, j),
            None => forall|j: int| from <= j ==> !matches_at(s, pat, j),
        },
    decreases s.len() + 1 - from,
{
    if from + pat.len() > s.len() {
    } else if matches_at(s, pat, from) {
    } else {
        lemma_find_from(s, pat, from + 1);
    }
}

/// The first index at or after `from` where `pat` occurs in `s`.
pub fn find_chars_from(s: &[char], pat: &[char], from: usize) -> (r: Option<usize>)
    ensures
        r == (match find_from(s@, pat@, from as int) {
            Some(i) => Some(i as usize),
            None => None::<usize>,
        }),
        match r {
            Some(i) => from <= i && i + pat.len() <= s.len(),
            None => true,
        },
{
    let mut i = from;
    if pat.len() > s.len() {
        return None;
    }
    let last = s.len() - pat.len();
    if i > last {
        return None;
    }
    loop
        invariant
            from <= i <= last,
            last == s.len() - pat.len(),
            pat.len() <= s.len(),
            find_from(s@, pat@, from as int) == find_from(s@, pat@, i as int),
        decreases last - i,
    {
        if matches_chars_at(s, pat, i) {
            return Some(i);
        }
        if i == last {
            assert(find_from(s@, pat@, i + 1) is None);
            return None;
        }
        i += 1;
    }
}

/// Whether `pat` occurs in `s` starting at index `i`.
pub fn matches_chars_at(s: &[char], pat: &[char], i: usize) -> (r: bool)
    ensures
        r == matches_at(s@, pat@, i as int),
{
    if i > s.len() || pat.len() > s.len() - i {
        return false;
    }
    let mut k: usize = 0;
    while k < pat.len()
        invariant
            i + pat.len() <= s.len(),
            k <= pat.len(),
            forall|j: int| 0 <= j < k ==> s@[i + j] == pat@[j],
        decreases pat.len() - k,
    {
        if s[i + k] != pat[k] {
            assert(s@.subrange(i as int, i + pat.len())[k as int] != pat@[k as int]);
            return false;
        }
        k += 1;
    }
    assert(s@.subrange(i as int, i + pat.len()) =~= pat@);
    true
}

} // verus!

verus! {

/// The characters `s[from..to]` as a new vector.
pub fn sub_chars(s: &[char], from: usize, to: usize) -> (r: Vec<char>)
    requires
        from <= to <= s.len(),
    ensures
        r@ == s@.subrange(from as int, to as int),
{
    let mut r: Vec<char> = Vec::new();
    let mut i = from;
    while i < to
        invariant
            from <= i <= to <= s.len(),
            r@ == s@.subrange(from as int, i as int),
        decreases to - i,
    {
        r.push(s[i]);
        i += 1;
        assert(r@ =~= s@.subrange(from as int, i as int));
    }
    r
}

/// Drops a trailing carriage return.
pub open spec fn strip_cr(l: Seq<char>) -> Seq<char> {
    if l.len() > 0 && l.last() == '\r' {
        l.drop_last()
    } else {
        l
    }
}

/// The lines of `s[from..]` as `str::lines` gives them: split at `'\n'`, a `'\r'` right
/// before a `'\n'` dropped, and no empty last line after a final line break.
pub open spec fn lines_from(s: Seq<char>, from: int) -> Seq<Seq<char>>
    decreases s.len() - from,
{
    if from < 0 || from >= s.len() {
        seq![]
    } else {
        match find_from(s, seq!['\n'], from) {
            Some(i) => if from <= i < s.len() {
                seq![strip_cr(s.subrange(from, i))] + lines_from(s, i + 1)
            } else {
                seq![]
            },
            None => seq![s.subrange(from, s.len() as int)],
        }
    }
}

/// The lines of a text, as `str::lines` gives them.
pub open spec fn lines(s: Seq<char>) -> Seq<Seq<char>> {
    lines_from(s, 0)
}

/// The views of a sequence of character vectors.
pub open spec fn char_views(v: Seq<Vec<char>>) -> Seq<Seq<char>> {
    v.map_values(|x: Vec<char>| x@)
}

/// The views of a sequence of texts.
pub open spec fn string_views(v: Seq<String>) -> Seq<Seq<char>> {
    v.map_values(|x: String| x@)
}

/// Splits a text into lines as `str::lines` does.
pub fn split_lines(s: &[char]) -> (r: Vec<Vec<char>>)
    ensures
        char_views(r@) == lines(s@),
{
    let mut r: Vec<Vec<char>> = Vec::new();
    let mut from: usize = 0;
    let nl = ['\n'];
    assert(nl@ == seq!['\n']);
    while from < s.len()
        invariant
            from <= s.len(),
            nl@ == seq!['\n'],
            lines(s@) == char_views(r@) + lines_from(s@, from as int),
        decreases s.len() - from,
    {
        proof {
            lemma_find_from(s@, seq!['\n'], from as int);
        }
        match find_chars_from(s, &nl, from) {
            Some(i) => {
                let mut line = sub_chars(s, from, i);
                if line.len() > 0 && line[line.len() - 1] == '\r' {
                    line.pop();
                }
                proof {
                    assert(matches_at(s@, seq!['\n'], i as int));
                    assert(s@.subrange(i as int, i + 1)[0] == '\n');
                }
                let ghost old_r = r@;
                r.push(line);
                assert(char_views(r@) == char_views(old_r).push(line@));
                from = i + 1;
            }
            None => {
                let line = sub_chars(s, from, s.len());
                let ghost old_r = r@;
                r.push(line);
                assert(char_views(r@) == char_views(old_r).push(line@));
                assert(lines_from(s@, s.len() as int) == Seq::<Seq<char>>::empty());
                from = s.len();
            }
        }
    }
    assert(char_views(r@) + lines_from(s@, from as int) == char_views(r@));
    r
}

} // verus!

verus! {

/// The number of leading whitespace characters of `s`.
pub open spec fn leading_ws(s: Seq<char>) -> nat
    decreases s.len(),
{
    if s.len() > 0 && spec_is_whitespace(s[0]) {
        1 + leading_ws(s.drop_first())
    } else {
        0
    }
}

/// The number of trailing whitespace characters of `s`.
pub open spec fn trailing_ws(s: Seq<char>) -> nat
    decreases s.len(),
{
    if s.len() > 0 && spec_is_whitespace(s.last()) {
        1 + trailing_ws(s.drop_last())
    } else {
        0
    }
}

/// `s` without leading whitespace (`str::trim_start`).
pub open spec fn trim_start(s: Seq<char>) -> Seq<char> {
    s.skip(leading_ws(s) as int)
}

/// `s` without trailing whitespace (`str::trim_end`).
pub open spec fn trim_end(s: Seq<char>) -> Seq<char> {
    s.take(s.len() - trailing_ws(s))
}

/// `s` without leading and trailing whitespace (`str::trim`).
pub open spec fn trim(s: Seq<char>) -> Seq<char> {
    trim_end(trim_start(s))
}

pub proof fn lemma_leading_ws(s: Seq<char>, k: int)
    requires
        0 <= k <= s.len(),
        forall|j: int| 0 <= j < k ==> spec_is_whitespace(s[j]),
        k == s.len() || !spec_is_whitespace(s[k]),
    ensures
        leading_ws(s) == k,
    decreases k,
{
    if k > 0 {
        lemma_leading_ws(s.drop_first(), k - 1);
    }
}

pub proof fn lemma_trailing_ws(s: Seq<char>, k: int)
    requires
        0 <= k <= s.len(),
        forall|j: int| s.len() - k <= j < s.len() ==> spec_is_whitespace(s[j]),
        k == s.len() || !spec_is_whitespace(s[s.len() - k - 1]),
    ensures
        trailing_ws(s) == k,
    decreases k,
{
    if k > 0 {
        lemma_trailing_ws(s.drop_last(), k - 1);
    }
}

/// The start of `s` once leading whitespace is skipped.
pub fn trim_start_index(s: &[char]) -> (k: usize)
    ensures
        k == leading_ws(s@),
        k <= s.len(),
{
    let mut k: usize = 0;
    while k < s.len() && is_whitespace(s[k])
        invariant
            k <= s.len(),
            forall|j: int| 0 <= j < k ==> spec_is_whitespace(s@[j]),
        decreases s.len() - k,
    {
        k += 1;
    }
    proof {
        lemma_leading_ws(s@, k as int);
    }
    k
}

/// The end of `s` once trailing whitespace is dropped.
pub fn trim_end_index(s: &[char]) -> (k: usize)
    ensures
        k == s.len() - trailing_ws(s@),
        k <= s.len(),
{
    let mut k: usize = s.len();
    while k > 0 && is_whitespace(s[k - 1])
        invariant
            k <= s.len(),
            forall|j: int| k <= j < s.len() ==> spec_is_whitespace(s@[j]),
        decreases k,
    {
        k -= 1;
    }
    proof {
        lemma_trailing_ws(s@, s.len() - k);
    }
    k
}

/// `str::trim_start`.
pub fn trim_start_chars(s: &[char]) -> (r: Vec<char>)
    ensures
        r@ == trim_start(s@),
{
    let k = trim_start_index(s);
    let r = sub_chars(s, k, s.len());
    assert(r@ =~= trim_start(s@));
    r
}

/// `str::trim_end`.
pub fn trim_end_chars(s: &[char]) -> (r: Vec<char>)
    ensures
        r@ == trim_end(s@),
{
    let k = trim_end_index(s);
    let r = sub_chars(s, 0, k);
    assert(r@ =~= trim_end(s@));
    r
}

/// `str::trim`.
pub fn trim_chars(s: &[char]) -> (r: Vec<char>)
    ensures
        r@ == trim(s@),
{
    let a = trim_start_chars(s);
    trim_end_chars(&a)
}

/// `s` without any leading `c` (`str::trim_start_matches` with one character).
pub open spec fn strip_leading(s: Seq<char>, c: char) -> Seq<char>
    decreases s.len(),
{
    if s.len() > 0 && s[0] == c {
        strip_leading(s.drop_first(), c)
    } else {
        s
    }
}

/// `s` without any trailing `c` (`str::trim_end_matches` with one character).
pub open spec fn strip_trailing(s: Seq<char>, c: char) -> Seq<char>
    decreases s.len(),
{
    if s.len() > 0 && s.last() == c {
        strip_trailing(s.drop_last(), c)
    } else {
        s
    }
}

/// `str::trim_start_matches` with one character.
pub fn strip_leading_chars(s: &[char], c: char) -> (r: Vec<char>)
    ensures
        r@ == strip_leading(s@, c),
{
    let mut k: usize = 0;
    assert(s@.skip(0) =~= s@);
    while k < s.len() && s[k] == c
        invariant
            k <= s.len(),
            strip_leading(s@, c) == strip_leading(s@.skip(k as int), c),
        decreases s.len() - k,
    {
        assert(s@.skip(k as int).drop_first() =~= s@.skip(k + 1));
        k += 1;
    }
    let r = sub_chars(s, k, s.len());
    assert(r@ =~= s@.skip(k as int));
    r
}

/// `str::trim_end_matches` with one character.
pub fn strip_trailing_chars(s: &[char], c: char) -> (r: Vec<char>)
    ensures
        r@ == strip_trailing(s@, c),
{
    let mut k: usize = s.len();
    assert(s@.take(s.len() as int) =~= s@);
    while k > 0 && s[k - 1] == c
        invariant
            k <= s.len(),
            strip_trailing(s@, c) == strip_trailing(s@.take(k as int), c),
        decreases k,
    {
        assert(s@.take(k as int).drop_last() =~= s@.take(k - 1));
        k -= 1;
    }
    let r = sub_chars(s, 0, k);
    assert(r@ =~= s@.take(k as int));
    r
}

} // verus!

verus! {

/// Lexicographic order on texts by code point, which is the order `String`'s `Ord` gives
/// (UTF-8 preserves code-point order byte by byte).
pub open spec fn seq_lt(a: Seq<char>, b: Seq<char>) -> bool
    decreases a.len(),
{
    if a.len() == 0 {
        b.len() > 0
    } else if b.len() == 0 {
        false
    } else if a[0] != b[0] {
        a[0] < b[0]
    } else {
        seq_lt(a.drop_first(), b.drop_first())
    }
}

pub open spec fn seq_le(a: Seq<char>, b: Seq<char>) -> bool {
    seq_lt(a, b) || a == b
}

pub proof fn lemma_seq_lt_irreflexive(a: Seq<char>)
    ensures
        !seq_lt(a, a),
    decreases a.len(),
{
    if a.len() > 0 {
        lemma_seq_lt_irreflexive(a.drop_first());
    }
}

pub proof fn lemma_seq_lt_trans(a: Seq<char>, b: Seq<char>, c: Seq<char>)
    requires
        seq_lt(a, b),
        seq_lt(b, c),
    ensures
        seq_lt(a, c),
    decreases a.len(),
{
    if a.len() > 0 && b.len() > 0 && c.len() > 0 && a[0] == b[0] && b[0] == c[0] {
        lemma_seq_lt_trans(a.drop_first(), b.drop_first(), c.drop_first());
    }
}

pub proof fn lemma_seq_lt_total(a: Seq<char>, b: Seq<char>)
    ensures
        seq_lt(a, b) || seq_lt(b, a) || a == b,
    decreases a.len(),
{
    if a.len() > 0 && b.len() > 0 && a[0] == b[0] {
        lemma_seq_lt_total(a.drop_first(), b.drop_first());
        if a.drop_first() == b.drop_first() {
            assert(a =~= seq![a[0]] + a.drop_first());
            assert(b =~= seq![b[0]] + b.drop_first());
        }
    } else if a.len() == 0 && b.len() == 0 {
        assert(a =~= b);
    }
}

pub proof fn lemma_seq_lt_asym(a: Seq<char>, b: Seq<char>)
    requires
        seq_lt(a, b),
    ensures
        !seq_lt(b, a),
        a != b,
{
    lemma_seq_lt_irreflexive(a);
    if seq_lt(b, a) {
        lemma_seq_lt_trans(a, b, a);
    }
}

/// Lexicographic comparison by code point: whether `a` comes strictly before `b`.
pub fn chars_lt(a: &[char], b: &[char]) -> (r: bool)
    ensures
        r == seq_lt(a@, b@),
{
    let mut i: usize = 0;
    assert(a@.skip(0) =~= a@);
    assert(b@.skip(0) =~= b@);
    while i < a.len() && i < b.len() && a[i] == b[i]
        invariant
            i <= a.len(),
            i <= b.len(),
            seq_lt(a@, b@) == seq_lt(a@.skip(i as int), b@.skip(i as int)),
        decreases a.len() - i,
    {
        assert(a@.skip(i as int).drop_first() =~= a@.skip(i + 1));
        assert(b@.skip(i as int).drop_first() =~= b@.skip(i + 1));
        i += 1;
    }
    if i == a.len() {
        i < b.len()
    } else if i == b.len() {
        false
    } else {
        a[i] < b[i]
    }
}

/// Whether two character sequences are equal.
pub fn chars_eq(a: &[char], b: &[char]) -> (r: bool)
    ensures
        r == (a@ == b@),
{
    if a.len() != b.len() {
        return false;
    }
    let mut i: usize = 0;
    while i < a.len()
        invariant
            a.len() == b.len(),
            i <= a.len(),
            forall|j: int| 0 <= j < i ==> a@[j] == b@[j],
        decreases a.len() - i,
    {
        if a[i] != b[i] {
            return false;
        }
        i += 1;
    }
    assert(a@ =~= b@);
    true
}

/// Lexicographic order on texts.
pub fn str_lt(a: &str, b: &str) -> (r: bool)
    ensures
        r == seq_lt(a@, b@),
{
    let x = chars_of(a);
    let y = chars_of(b);
    chars_lt(&x, &y)
}

/// Equality of texts.
pub fn str_eq(a: &str, b: &str) -> (r: bool)
    ensures
        r == (a@ == b@),
{
    let x = chars_of(a);
    let y = chars_of(b);
    chars_eq(&x, &y)
}

/// The decimal digit character for `d < 10`.
pub open spec fn digit_char(d: nat) -> char {
    (d + 48) as char
}

/// The decimal representation of a number, as `usize::to_string` gives it.
pub open spec fn decimal(n: nat) -> Seq<char>
    decreases n,
{
    if n < 10 {
        seq![digit_char(n)]
    } else {
        decimal(n / 10).push(digit_char(n % 10))
    }
}

/// Appends the decimal representation of `n`.
pub fn push_decimal(out: &mut String, n: usize)
    ensures
        final(out)@ == old(out)@ + decimal(n as nat),
    decreases n,
{
    if n >= 10 {
        push_decimal(out, n / 10);
    }
    let d: u8 = (n % 10) as u8;
    let c: char = (d + 48u8) as char;
    assert(c == digit_char((n % 10) as nat));
    push_char(out, c);
    assert(old(out)@ + decimal(n as nat) == (old(out)@ + if n >= 10 { decimal((n / 10) as nat) } else { Seq::empty() }).push(c));
}

/// Appends the decimal representation of `n`.
pub fn push_decimal_wide(out: &mut String, n: u128)
    ensures
        final(out)@ == old(out)@ + decimal(n as nat),
    decreases n,
{
    if n >= 10 {
        push_decimal_wide(out, n / 10);
    }
    let d: u8 = (n % 10) as u8;
    let c: char = (d + 48u8) as char;
    assert(c == digit_char((n % 10) as nat));
    push_char(out, c);
    assert(old(out)@ + decimal(n as nat) == (old(out)@ + if n >= 10 { decimal((n / 10) as nat) } else { Seq::empty() }).push(c));
}

} // verus!

verus! {

pub open spec fn is_digit(c: char) -> bool {
    '0' <= c && c <= '9'
}

/// The value of a sequence of decimal digits.
pub open spec fn digits_value(s: Seq<char>) -> nat
    decreases s.len(),
{
    if s.len() == 0 {
        0
    } else {
        digits_value(s.drop_last()) * 10 + ((s.last() as int - 48) as nat)
    }
}

/// Whether every character of `d` is a decimal digit.
pub open spec fn all_digits(d: Seq<char>) -> bool {
    forall|i: int| 0 <= i < d.len() ==> is_digit(#[trigger] d[i])
}

/// `s` without one leading `+`.
pub open spec fn unsigned_digits(s: Seq<char>) -> Seq<char> {
    if s.len() > 0 && s[0] == '+' {
        s.drop_first()
    } else {
        s
    }
}

/// What `str::parse::<usize>` accepts: an optional `+` followed by one or more decimal
/// digits whose value fits in a `usize`.
pub open spec fn parse_usize_spec(s: Seq<char>) -> Option<usize> {
    let d = unsigned_digits(s);
    if d.len() > 0 && all_digits(d) && digits_value(d) <= usize::MAX {
        Some(digits_value(d) as usize)
    } else {
        None
    }
}

proof fn lemma_digits_value_grows(s: Seq<char>, i: int)
    requires
        0 <= i <= s.len(),
        forall|j: int| 0 <= j < s.len() ==> is_digit(#[trigger] s[j]),
    ensures
        digits_value(s.take(i)) <= digits_value(s),
    decreases s.len() - i,
{
    if i < s.len() {
        lemma_digits_value_grows(s, i + 1);
        assert(s.take(i + 1).drop_last() =~= s.take(i));
        assert(digits_value(s.take(i + 1)) == digits_value(s.take(i)) * 10 + ((s[i] as int - 48) as nat));
    } else {
        assert(s.take(i) =~= s);
    }
}

proof fn lemma_overflow_rejects(d: Seq<char>, i: int)
    requires
        0 <= i <= d.len(),
        digits_value(d.take(i)) > usize::MAX,
    ensures
        !(all_digits(d) && digits_value(d) <= usize::MAX),
{
    if all_digits(d) {
        lemma_digits_value_grows(d, i);
    }
}

/// `str::parse::<usize>`.
pub fn parse_usize(s: &[char]) -> (r: Option<usize>)
    ensures
        r == parse_usize_spec(s@),
{
    let start: usize = if s.len() > 0 && s[0] == '+' { 1 } else { 0 };
    let ghost d = unsigned_digits(s@);
    assert(d =~= s@.skip(start as int));
    if start == s.len() {
        return None;
    }
    let mut i = start;
    let mut v: usize = 0;
    assert(d.take(0) =~= Seq::<char>::empty());
    while i < s.len()
        invariant
            start <= i <= s.len(),
            d == s@.skip(start as int),
            d == unsigned_digits(s@),
            d.len() > 0,
            forall|j: int| 0 <= j < i - start ==> is_digit(#[trigger] d[j]),
            v == digits_value(d.take(i - start)),
        decreases s.len() - i,
    {
        let c = s[i];
        if !('0' <= c && c <= '9') {
            assert(d[i - start] == c);
            assert(!is_digit(d[i - start]));
            assert(!all_digits(d));
            return None;
        }
        let dig: usize = ((c as u32) - 48) as usize;
        assert(d.take(i + 1 - start).drop_last() =~= d.take(i - start));
        assert(d.take(i + 1 - start).last() == c);
        assert(digits_value(d.take(i + 1 - start)) == v * 10 + dig);
        match v.checked_mul(10) {
            Some(m) => match m.checked_add(dig) {
                Some(nv) => {
                    v = nv;
                },
                None => {
                    proof {
                        lemma_overflow_rejects(d, (i + 1 - start) as int);
                    }
                    return None;
                },
            },
            None => {
                proof {
                    lemma_overflow_rejects(d, (i + 1 - start) as int);
                }
                return None;
            },
        }
        i += 1;
    }
    assert(d.take(d.len() as int) =~= d);
    Some(v)
}

/// ASCII lowercase of one character (`char::to_ascii_lowercase`).
pub open spec fn ascii_lower(c: char) -> char {
    if 'A' <= c && c <= 'Z' {
        ((c as u32) + 32) as char
    } else {
        c
    }
}

pub fn ascii_lower_char(c: char) -> (r: char)
    ensures
        r == ascii_lower(c),
{
    if 'A' <= c && c <= 'Z' {
        ((c as u8) + 32u8) as char
    } else {
        c
    }
}

/// `str::to_ascii_lowercase`.
pub fn ascii_lower_chars(s: &[char]) -> (r: Vec<char>)
    ensures
        r@ == s@.map_values(|c: char| ascii_lower(c)),
{
    let mut r: Vec<char> = Vec::new();
    let mut i: usize = 0;
    while i < s.len()
        invariant
            i <= s.len(),
            r@ == s@.take(i as int).map_values(|c: char| ascii_lower(c)),
        decreases s.len() - i,
    {
        r.push(ascii_lower_char(s[i]));
        i += 1;
        assert(r@ =~= s@.take(i as int).map_values(|c: char| ascii_lower(c)));
    }
    assert(s@.take(s.len() as int) =~= s@);
    r
}

/// `char::is_ascii_alphanumeric`.
pub open spec fn is_ascii_alnum(c: char) -> bool {
    ('0' <= c && c <= '9') || ('a' <= c && c <= 'z') || ('A' <= c && c <= 'Z')
}

} // verus!

verus! {

/// The pieces of `s[from..]` between occurrences of `c`, as `str::split` with one
/// character gives them.
pub open spec fn split_from(s: Seq<char>, c: char, from: int) -> Seq<Seq<char>>
    decreases s.len() + 1 - from,
{
    if from < 0 || from > s.len() {
        seq![]
    } else {
        match find_from(s, seq![c], from) {
            Some(i) => if from <= i < s.len() {
                seq![s.subrange(from, i)] + split_from(s, c, i + 1)
            } else {
                seq![]
            },
            None => seq![s.subrange(from, s.len() as int)],
        }
    }
}

/// `str::split` with one character.
pub open spec fn split(s: Seq<char>, c: char) -> Seq<Seq<char>> {
    split_from(s, c, 0)
}

/// The first piece of `str::split`: everything before the first `c`.
pub open spec fn before_first(s: Seq<char>, c: char) -> Seq<char> {
    match find(s, seq![c]) {
        Some(i) => s.take(i),
        None => s,
    }
}

/// `str::split` with one character.
pub fn split_chars(s: &[char], c: char) -> (r: Vec<Vec<char>>)
    ensures
        char_views(r@) == split(s@, c),
        r@.len() >= 1,
{
    let mut r: Vec<Vec<char>> = Vec::new();
    let mut from: usize = 0;
    let pat = [c];
    assert(pat@ == seq![c]);
    loop
        invariant
            from <= s.len(),
            pat@ == seq![c],
            split(s@, c) == char_views(r@) + split_from(s@, c, from as int),
        decreases s.len() - from,
    {
        proof {
            lemma_find_from(s@, seq![c], from as int);
        }
        match find_chars_from(s, &pat, from) {
            Some(i) => {
                let piece = sub_chars(s, from, i);
                proof {
                    assert(matches_at(s@, seq![c], i as int));
                    assert(s@.subrange(i as int, i + 1)[0] == c);
                }
                let ghost old_r = r@;
                r.push(piece);
                assert(char_views(r@) == char_views(old_r).push(piece@));
                from = i + 1;
            },
            None => {
                let piece = sub_chars(s, from, s.len());
                let ghost old_r = r@;
                r.push(piece);
                assert(char_views(r@) == char_views(old_r).push(piece@));
                assert(split_from(s@, c, from as int) == seq![piece@]);
                assert(char_views(r@) == split(s@, c));
                return r;
            },
        }
    }
}

/// Everything before the first `c` (the first piece of `str::split`).
pub fn before_first_chars(s: &[char], c: char) -> (r: Vec<char>)
    ensures
        r@ == before_first(s@, c),
{
    let pat = [c];
    assert(pat@ == seq![c]);
    match find_chars_from(s, &pat, 0) {
        Some(i) => {
            proof {
                lemma_find_from(s@, seq![c], 0);
            }
            let r = sub_chars(s, 0, i);
            assert(r@ =~= s@.take(i as int));
            r
        },
        None => {
            let r = sub_chars(s, 0, s.len());
            assert(r@ =~= s@);
            r
        },
    }
}

} // verus!

verus! {

/// Texts joined by a separator (`[String]::join`).
pub open spec fn join_sep(v: Seq<Seq<char>>, sep: Seq<char>) -> Seq<char>
    decreases v.len(),
{
    if v.len() == 0 {
        seq![]
    } else if v.len() == 1 {
        v[0]
    } else {
        join_sep(v.drop_last(), sep) + sep + v.last()
    }
}

/// `[String]::join`.
pub fn join_texts(v: &[String], sep: &str) -> (r: String)
    ensures
        r@ == join_sep(string_views(v@), sep@),
{
    let ghost sv = string_views(v@);
    let mut r = String::new();
    let mut i: usize = 0;
    assert(sv.take(0) =~= Seq::<Seq<char>>::empty());
    while i < v.len()
        invariant
            i <= v.len(),
            sv == string_views(v@),
            r@ == join_sep(sv.take(i as int), sep@),
        decreases v.len() - i,
    {
        if i > 0 {
            r.append(sep);
        }
        r.append(v[i].as_str());
        assert(sv.take(i + 1).drop_last() =~= sv.take(i as int));
        if i == 0 {
            assert(join_sep(sv.take(1), sep@) == sv.take(1)[0]);
            assert(r@ =~= join_sep(sv.take(1), sep@));
        } else {
            assert(r@ =~= join_sep(sv.take(i + 1), sep@));
        }
        i += 1;
    }
    assert(sv.take(v.len() as int) =~= sv);
    r
}

/// Every `from` replaced by `to`.
pub open spec fn replace_char(s: Seq<char>, from: char, to: char) -> Seq<char> {
    s.map_values(|c: char| if c == from { to } else { c })
}

/// `str::replace` with one character for another.
pub fn replace_chars(s: &[char], from: char, to: char) -> (r: Vec<char>)
    ensures
        r@ == replace_char(s@, from, to),
{
    let mut r: Vec<char> = Vec::new();
    let mut i: usize = 0;
    while i < s.len()
        invariant
            i <= s.len(),
            r@ == replace_char(s@.take(i as int), from, to),
        decreases s.len() - i,
    {
        let c = if s[i] == from { to } else { s[i] };
        r.push(c);
        assert(replace_char(s@.take(i + 1), from, to) =~= replace_char(s@.take(i as int), from, to).push(c));
        i += 1;
    }
    assert(s@.take(s.len() as int) =~= s@);
    r
}

/// Whether `s` ends with `pat`.
pub open spec fn ends_with(s: Seq<char>, pat: Seq<char>) -> bool {
    s.len() >= pat.len() && s.skip(s.len() - pat.len()) == pat
}

/// `str::ends_with`.
pub fn ends_with_chars(s: &[char], pat: &[char]) -> (r: bool)
    ensures
        r == ends_with(s@, pat@),
{
    if s.len() < pat.len() {
        return false;
    }
    let off = s.len() - pat.len();
    let mut i: usize = 0;
    while i < pat.len()
        invariant
            off + pat.len() == s.len(),
            i <= pat.len(),
            forall|k: int| 0 <= k < i ==> s@[off + k] == pat@[k],
        decreases pat.len() - i,
    {
        if s[off + i] != pat[i] {
            assert(s@.skip(off as int)[i as int] != pat@[i as int]);
            return false;
        }
        i += 1;
    }
    assert(s@.skip(off as int) =~= pat@);
    true
}

} // verus!

verus! {

/// The first `c` at or after `from` is the first index where it stands.
pub proof fn lemma_find_char_at(s: Seq<char>, c: char, from: int, j: int)
    requires
        0 <= from <= j < s.len(),
        s[j] == c,
        forall|k: int| from <= k < j ==> s[k] != c,
    ensures
        find_from(s, seq![c], from) == Some(j),
    decreases j - from,
{
    if from < j {
        assert(s.subrange(from, from + 1)[0] == s[from]);
        assert(!matches_at(s, seq![c], from));
        lemma_find_char_at(s, c, from + 1, j);
    } else {
        assert(s.subrange(j, j + 1) =~= seq![c]);
        assert(matches_at(s, seq![c], j));
    }
}

/// Where no `c` stands at or after `from`, none is found.
pub proof fn lemma_find_char_none(s: Seq<char>, c: char, from: int)
    requires
        0 <= from,
        forall|k: int| from <= k < s.len() ==> s[k] != c,
    ensures
        find_from(s, seq![c], from) is None,
    decreases s.len() + 1 - from,
{
    if from + 1 <= s.len() {
        assert(s.subrange(from, from + 1)[0] == s[from]);
        assert(!matches_at(s, seq![c], from));
        lemma_find_char_none(s, c, from + 1);
    }
}

/// Finding in `p + b` after `p` is finding in `b`.
pub proof fn lemma_find_shift(p: Seq<char>, b: Seq<char>, pat: Seq<char>, i: int)
    requires
        0 <= i,
    ensures
        find_from(p + b, pat, p.len() + i) == match find_from(b, pat, i) {
            Some(j) => Some(j + p.len()),
            None => None::<int>,
        },
    decreases b.len() + 1 - i,
{
    let t = p + b;
    if i + pat.len() <= b.len() {
        assert(t.subrange(p.len() + i, p.len() + i + pat.len()) =~= b.subrange(i, i + pat.len()));
        if !matches_at(b, pat, i) {
            lemma_find_shift(p, b, pat, i + 1);
        }
    }
}

/// The lines of `p + b` after `p` are the lines of `b`.
pub proof fn lemma_lines_shift(p: Seq<char>, b: Seq<char>, i: int)
    requires
        0 <= i,
    ensures
        lines_from(p + b, p.len() + i) == lines_from(b, i),
    decreases b.len() - i,
{
    let t = p + b;
    if i < b.len() {
        lemma_find_shift(p, b, seq!['\n'], i);
        lemma_find_from(b, seq!['\n'], i);
        match find_from(b, seq!['\n'], i) {
            Some(j) => {
                assert(t.subrange(p.len() + i, j + p.len()) =~= b.subrange(i, j));
                lemma_lines_shift(p, b, j + 1);
            },
            None => {
                assert(t.subrange(p.len() + i, t.len() as int) =~= b.subrange(i, b.len() as int));
            },
        }
    }
}

/// The lines of a line, a line break and more text: that line, then the lines of the rest.
pub proof fn lemma_lines_cons(a: Seq<char>, b: Seq<char>)
    requires
        forall|k: int| 0 <= k < a.len() ==> a[k] != '\n',
        !(a.len() > 0 && a.last() == '\r'),
    ensures
        lines(a + seq!['\n'] + b) == seq![a] + lines(b),
{
    let p = a + seq!['\n'];
    let t = p + b;
    lemma_find_char_at(t, '\n', 0, a.len() as int);
    assert(t.subrange(0, a.len() as int) =~= a);
    lemma_lines_shift(p, b, 0);
}

/// A text that starts with a character other than white space keeps something when trimmed.
pub proof fn lemma_trim_nonempty(s: Seq<char>)
    requires
        s.len() > 0,
        !spec_is_whitespace(s[0]),
    ensures
        trim(s).len() > 0,
{
    lemma_trailing_short(s);
    assert(leading_ws(s) == 0);
    assert(trim_start(s) =~= s);
}

proof fn lemma_trailing_short(s: Seq<char>)
    requires
        s.len() > 0,
        !spec_is_whitespace(s[0]),
    ensures
        trailing_ws(s) < s.len(),
    decreases s.len(),
{
    if s.len() > 1 && spec_is_whitespace(s.last()) {
        assert(s.drop_last()[0] == s[0]);
        lemma_trailing_short(s.drop_last());
    }
}

/// The decimal text of a number reads back as that number.
pub proof fn lemma_decimal_parses(n: usize)
    ensures
        parse_usize_spec(decimal(n as nat)) == Some(n),
{
    lemma_decimal_digits(n as nat);
    assert(unsigned_digits(decimal(n as nat)) == decimal(n as nat));
}

proof fn lemma_decimal_digits(n: nat)
    ensures
        decimal(n).len() > 0,
        all_digits(decimal(n)),
        decimal(n)[0] != '+',
        digits_value(decimal(n)) == n,
    decreases n,
{
    if n >= 10 {
        lemma_decimal_digits(n / 10);
        let d = decimal(n);
        assert(d.drop_last() =~= decimal(n / 10));
        assert(d[0] == decimal(n / 10)[0]);
        assert(n == (n / 10) * 10 + n % 10);
        assert(d.last() == digit_char(n % 10));
        assert(digit_char(n % 10) as int == n % 10 + 48);
        assert(digits_value(d) == digits_value(d.drop_last()) * 10 + ((d.last() as int - 48) as nat));
        assert(digits_value(d) == (n / 10) * 10 + n % 10);
        assert forall|i: int| 0 <= i < d.len() implies is_digit(#[trigger] d[i]) by {
            if i < d.len() - 1 {
                assert(d[i] == decimal(n / 10)[i]);
            }
        }
    } else {
        let d = decimal(n);
        assert(d =~= seq![digit_char(n)]);
        assert(digit_char(n) as int == n + 48);
        assert(d.drop_last() =~= Seq::<char>::empty());
        assert(digits_value(d) == digits_value(d.drop_last()) * 10 + ((d.last() as int - 48) as nat));
    }
}


/// No piece of `split_from` holds the separator.
pub proof fn lemma_split_pieces_lack(s: Seq<char>, c: char, from: int)
    ensures
        forall|k: int| 0 <= k < split_from(s, c, from).len() ==> !(#[trigger] split_from(s, c, from)[k]).contains(c),
    decreases s.len() + 1 - from,
{
    if 0 <= from <= s.len() {
        lemma_find_from(s, seq![c], from);
        match find_from(s, seq![c], from) {
            Some(i) => {
                if from <= i < s.len() {
                    lemma_split_pieces_lack(s, c, i + 1);
                    let piece = s.subrange(from, i);
                    assert(!piece.contains(c)) by {
                        if piece.contains(c) {
                            let m = choose|m: int| 0 <= m < piece.len() && piece[m] == c;
                            assert(s.subrange(from + m, from + m + 1) =~= seq![c]);
                            assert(matches_at(s, seq![c], from + m));
                        }
                    }
                    let r = split_from(s, c, from);
                    let rest = split_from(s, c, i + 1);
                    assert(r == seq![piece] + rest);
                    assert forall|k: int| 0 <= k < r.len() implies !(#[trigger] r[k]).contains(c) by {
                        if k > 0 {
                            assert(r[k] == rest[k - 1]);
                        }
                    }
                }
            },
            None => {
                let piece = s.subrange(from, s.len() as int);
                assert(!piece.contains(c)) by {
                    if piece.contains(c) {
                        let m = choose|m: int| 0 <= m < piece.len() && piece[m] == c;
                        assert(s.subrange(from + m, from + m + 1) =~= seq![c]);
                        assert(matches_at(s, seq![c], from + m));
                    }
                }
                assert(split_from(s, c, from)[0] == piece);
            },
        }
    }
}


/// `before_first` cuts at the first `c`: a text that starts with `a`, where `a` has no `c`,
/// keeps all of `a`, and keeps the character after it too unless that is `c`.
pub proof fn lemma_before_first_keeps(s: Seq<char>, c: char, a: Seq<char>)
    requires
        a.len() <= s.len(),
        s.take(a.len() as int) == a,
        !a.contains(c),
    ensures
        a.len() <= before_first(s, c).len() <= s.len(),
        before_first(s, c).take(a.len() as int) == a,
        before_first(s, c) == s.take(before_first(s, c).len() as int),
        a.len() < s.len() && s[a.len() as int] == c ==> before_first(s, c) == a,
        a.len() < s.len() && s[a.len() as int] != c ==> before_first(s, c).len() > a.len(),
        !s.contains(c) ==> before_first(s, c) == s,
{
    lemma_find_from(s, seq![c], 0);
    assert forall|k: int| 0 <= k < a.len() implies !matches_at(s, seq![c], k) by {
        if matches_at(s, seq![c], k) {
            assert(s.subrange(k, k + 1)[0] == s[k]);
            assert(s[k] == a[k]);
        }
    }
    match find(s, seq![c]) {
        Some(i) => {
            assert(matches_at(s, seq![c], i));
            assert(s.subrange(i, i + 1)[0] == s[i]);
            assert(s[i] == c);
            assert(i >= a.len());
            assert(s.take(i).take(a.len() as int) =~= a);
            if a.len() < s.len() && s[a.len() as int] == c {
                assert(s.subrange(a.len() as int, a.len() as int + 1) =~= seq![c]);
                assert(matches_at(s, seq![c], a.len() as int));
                assert(i == a.len());
                assert(s.take(i) =~= a);
            }
            if !s.contains(c) {
                assert(s.contains(s[i]));
            }
        },
        None => {
            if a.len() < s.len() && s[a.len() as int] == c {
                assert(s.subrange(a.len() as int, a.len() as int + 1) =~= seq![c]);
                assert(matches_at(s, seq![c], a.len() as int));
            }
            assert(s.take(s.len() as int) =~= s);
        },
    }
}

} // verus!


//! Character-level helpers on strings: building strings, decimal and hexadecimal
//! rendering, lexicographic order, whitespace trimming and substring search.
use vstd::prelude::*;

verus! {

broadcast use vstd::string::group_string_axioms;

// ---------------------------------------------------------------------------
// Characters, and calls into std that vstd leaves without a specification.
// ---------------------------------------------------------------------------

/// `String::push`: appends one character at the end of the string.
#[verifier::external_body]
pub(crate) fn push_char(s: &mut String, c: char)
    ensures
        final(s)@ == old(s)@.push(c),
{
    s.push(c);
}

/// Whether a character has the Unicode `White_Space` property, which is what
/// `char::is_whitespace` answers: tab, line feed, vertical tab, form feed,
/// carriage return, space, next line, no-break space, ogham space mark, the spaces
/// U+2000 to U+200A, line and paragraph separators, narrow no-break space, medium
/// mathematical space and ideographic space.
pub open spec fn spec_is_whitespace(c: char) -> bool {
    let u = c as u32;
    ||| 0x9 <= u <= 0xd
    ||| u == 0x20
    ||| u == 0x85
    ||| u == 0xa0
    ||| u == 0x1680
    ||| 0x2000 <= u <= 0x200a
    ||| u == 0x2028
    ||| u == 0x2029
    ||| u == 0x202f
    ||| u == 0x205f
    ||| u == 0x3000
}

/// Whether a character is whitespace, as `char::is_whitespace` answers.
pub(crate) fn is_whitespace(c: char) -> (r: bool)
    ensures
        r == spec_is_whitespace(c),
{
    let u = c as u32;
    (0x9 <= u && u <= 0xd) || u == 0x20 || u == 0x85 || u == 0xa0 || u == 0x1680 || (0x2000 <= u
        && u <= 0x200a) || u == 0x2028 || u == 0x2029 || u == 0x202f || u == 0x205f || u == 0x3000
}

/// What `str::to_lowercase` returns: the Unicode lowercase mapping of the string.
pub uninterp spec fn spec_to_lowercase(s: Seq<char>) -> Seq<char>;

/// `str::to_lowercase`; its result is named by `spec_to_lowercase`.
#[verifier::external_body]
pub(crate) fn to_lowercase(s: &str) -> (r: String)
    ensures
        r@ == spec_to_lowercase(s@),
{
    s.to_lowercase()
}

// ---------------------------------------------------------------------------
// Building strings
// ---------------------------------------------------------------------------

/// The characters of a string slice, in order.
pub fn chars_of(s: &str) -> (v: Vec<char>)
    ensures
        v@ == s@,
{
    let mut v: Vec<char> = Vec::new();
    for c in it: s.chars()
        invariant
            v@ == it.seq().take(it.index() as int),
    {
        v.push(c);
    }
    v
}

/// Appends a string slice to a string.
pub fn push_str(s: &mut String, t: &str)
    ensures
        final(s)@ == old(s)@ + t@,
{
    s.append(t);
}

/// Two strings with the same characters.
pub fn str_eq(a: &str, b: &str) -> (r: bool)
    ensures
        r == (a@ == b@),
{
    let x = chars_of(a);
    let y = chars_of(b);
    chars_eq(&x, &y)
}

/// Two character sequences that are equal.
pub fn chars_eq(x: &Vec<char>, y: &Vec<char>) -> (r: bool)
    ensures
        r == (x@ == y@),
{
    if x.len() != y.len() {
        return false;
    }
    let n = x.len();
    for i in 0..n
        invariant
            n == x@.len(),
            n == y@.len(),
            forall|j: int| 0 <= j < i ==> x@[j] == y@[j],
    {
        if x[i] != y[i] {
            return false;
        }
    }
    assert(x@ =~= y@);
    true
}

// ---------------------------------------------------------------------------
// Decimal and hexadecimal digits
// ---------------------------------------------------------------------------

/// The character of a decimal or hexadecimal digit (lower case letters).
pub open spec fn digit_char(d: nat) -> char {
    if d < 10 {
        (d + 48) as char
    } else {
        (d + 87) as char
    }
}

fn digit(d: u64) -> (c: char)
    requires
        d < 16,
    ensures
        c == digit_char(d as nat),
{
    match d {
        0 => '0',
        1 => '1',
        2 => '2',
        3 => '3',
        4 => '4',
        5 => '5',
        6 => '6',
        7 => '7',
        8 => '8',
        9 => '9',
        10 => 'a',
        11 => 'b',
        12 => 'c',
        13 => 'd',
        14 => 'e',
        _ => 'f',
    }
}

/// The decimal representation of a natural number, without leading zeros.
pub open spec fn decimal(n: nat) -> Seq<char>
    decreases n,
{
    if n < 10 {
        seq![digit_char(n)]
    } else {
        decimal(n / 10).push(digit_char(n % 10))
    }
}

/// Appends the decimal representation of `n`.
pub fn push_decimal(s: &mut String, n: u128)
    ensures
        final(s)@ == old(s)@ + decimal(n as nat),
    decreases n,
{
    if n >= 10 {
        push_decimal(s, n / 10);
    }
    push_char(s, digit((n % 10) as u64));
    assert(n < 10 ==> decimal(n as nat) =~= seq![digit_char(n as nat)]);
}

/// The two lower-case hexadecimal digits of a byte.
pub open spec fn hex_byte(b: u8) -> Seq<char> {
    seq![digit_char((b / 16) as nat), digit_char((b % 16) as nat)]
}

/// The lower-case hexadecimal rendering of a byte sequence, two digits per byte.
pub open spec fn hex_lower(bytes: Seq<u8>) -> Seq<char>
    decreases bytes.len(),
{
    if bytes.len() == 0 {
        Seq::empty()
    } else {
        hex_lower(bytes.drop_last()) + hex_byte(bytes.last())
    }
}

/// Renders bytes as lower-case hexadecimal.
pub fn to_hex_lower(bytes: &[u8]) -> (s: String)
    ensures
        s@ == hex_lower(bytes@),
{
    let mut s = String::new();
    let n = bytes.len();
    for i in 0..n
        invariant
            n == bytes@.len(),
            s@ == hex_lower(bytes@.take(i as int)),
    {
        let b = bytes[i];
        push_char(&mut s, digit((b / 16) as u64));
        push_char(&mut s, digit((b % 16) as u64));
        assert(bytes@.take(i + 1).drop_last() =~= bytes@.take(i as int));
        assert(s@ =~= hex_lower(bytes@.take(i + 1)));
    }
    assert(bytes@.take(n as int) =~= bytes@);
    s
}

// ---------------------------------------------------------------------------
// Lexicographic order
// ---------------------------------------------------------------------------

/// `a` comes strictly before `b` in lexicographic order of characters (which is
/// also the byte order of their UTF-8 encodings).
pub open spec fn seq_lt(a: Seq<char>, b: Seq<char>) -> bool
    decreases a.len(),
{
    if a.len() == 0 {
        b.len() > 0
    } else if b.len() == 0 {
        false
    } else if a[0] != b[0] {
        a[0] < b[0]
    } else {
        seq_lt(a.drop_first(), b.drop_first())
    }
}

/// Lexicographic order is irreflexive.
pub proof fn lemma_seq_lt_irreflexive(a: Seq<char>)
    ensures
        !seq_lt(a, a),
    decreases a.len(),
{
    if a.len() > 0 {
        lemma_seq_lt_irreflexive(a.drop_first());
    }
}

/// Lexicographic order is total: of two different sequences one comes first.
pub proof fn lemma_seq_lt_total(a: Seq<char>, b: Seq<char>)
    ensures
        a == b || seq_lt(a, b) || seq_lt(b, a),
    decreases a.len(),
{
    if a.len() > 0 && b.len() > 0 && a[0] == b[0] {
        lemma_seq_lt_total(a.drop_first(), b.drop_first());
        if a.drop_first() == b.drop_first() {
            assert(a =~= seq![a[0]] + a.drop_first());
            assert(b =~= seq![b[0]] + b.drop_first());
        }
    } else if a.len() == 0 && b.len() == 0 {
        assert(a =~= b);
    }
}

/// Lexicographic order is asymmetric.
pub proof fn lemma_seq_lt_asymmetric(a: Seq<char>, b: Seq<char>)
    ensures
        !(seq_lt(a, b) && seq_lt(b, a)),
    decreases a.len(),
{
    if a.len() > 0 && b.len() > 0 && a[0] == b[0] {
        lemma_seq_lt_asymmetric(a.drop_first(), b.drop_first());
    }
}

/// Lexicographic order is transitive.
pub proof fn lemma_seq_lt_transitive(a: Seq<char>, b: Seq<char>, c: Seq<char>)
    requires
        seq_lt(a, b),
        seq_lt(b, c),
    ensures
        seq_lt(a, c),
    decreases a.len(),
{
    if a.len() > 0 && b.len() > 0 && c.len() > 0 && a[0] == b[0] && b[0] == c[0] {
        lemma_seq_lt_transitive(a.drop_first(), b.drop_first(), c.drop_first());
    }
}

/// Compares two character sequences lexicographically: `-1` when `x` comes first,
/// `0` when they are equal, `1` when `y` comes first.
pub fn compare_chars(x: &Vec<char>, y: &Vec<char>) -> (r: i8)
    ensures
        r == -1 <==> seq_lt(x@, y@),
        r == 0 <==> x@ == y@,
        r == 1 <==> seq_lt(y@, x@),
        r == -1 || r == 0 || r == 1,
{
    let n = if x.len() < y.len() { x.len() } else { y.len() };
    let mut i: usize = 0;
    assert(x@.skip(0) =~= x@);
    assert(y@.skip(0) =~= y@);
    while i < n
        invariant
            n <= x@.len(),
            n <= y@.len(),
            n == x@.len() || n == y@.len(),
            i <= n,
            x@.take(i as int) == y@.take(i as int),
            seq_lt(x@, y@) == seq_lt(x@.skip(i as int), y@.skip(i as int)),
            seq_lt(y@, x@) == seq_lt(y@.skip(i as int), x@.skip(i as int)),
        decreases n - i,
    {
        assert(x@.skip(i as int).drop_first() =~= x@.skip(i + 1));
        assert(y@.skip(i as int).drop_first() =~= y@.skip(i + 1));
        assert(x@.skip(i as int)[0] == x@[i as int]);
        assert(y@.skip(i as int)[0] == y@[i as int]);
        if x[i] != y[i] {
            proof {
                lemma_seq_lt_asymmetric(x@, y@);
                if x@ == y@ {
                    assert(x@[i as int] == y@[i as int]);
                }
            }
            if x[i] < y[i] {
                return -1;
            } else {
                return 1;
            }
        }
        assert(x@.take(i + 1) =~= x@.take(i as int).push(x@[i as int]));
        assert(y@.take(i + 1) =~= y@.take(i as int).push(y@[i as int]));
        i = i + 1;
    }
    proof {
        lemma_seq_lt_asymmetric(x@, y@);
    }
    if x.len() == y.len() {
        assert(x@ =~= x@.take(i as int));
        assert(y@ =~= y@.take(i as int));
        proof {
            lemma_seq_lt_irreflexive(x@);
        }
        0
    } else if x.len() < y.len() {
        assert(x@.skip(i as int).len() == 0);
        -1
    } else {
        assert(y@.skip(i as int).len() == 0);
        1
    }
}

// ---------------------------------------------------------------------------
// Substrings, prefixes, trimming
// ---------------------------------------------------------------------------

/// `pat` occurs in `s` as a contiguous run of characters.
pub open spec fn contains_seq(s: Seq<char>, pat: Seq<char>) -> bool {
    exists|i: int| 0 <= i && i + pat.len() <= s.len() && #[trigger] s.subrange(i, i + pat.len()) == pat
}

/// `pat` occurs in `s` starting at index `i`.
pub open spec fn occurs_at(s: Seq<char>, pat: Seq<char>, i: int) -> bool {
    0 <= i && i + pat.len() <= s.len() && s.subrange(i, i + pat.len()) == pat
}

fn occurs_at_exec(s: &Vec<char>, pat: &Vec<char>, i: usize) -> (r: bool)
    requires
        i + pat@.len() <= s@.len(),
    ensures
        r == occurs_at(s@, pat@, i as int),
{
    let m = pat.len();
    for j in 0..m
        invariant
            m == pat@.len(),
            i + m <= s@.len(),
            i + m <= s.len(),
            forall|k: int| 0 <= k < j ==> s@[i + k] == pat@[k],
    {
        if s[i + j] != pat[j] {
            assert(s@.subrange(i as int, i + m)[j as int] != pat@[j as int]);
            return false;
        }
    }
    assert(s@.subrange(i as int, i + m) =~= pat@);
    true
}

/// `str::contains` for a string pattern: whether `pat` occurs in `s`.
pub fn contains_str(s: &str, pat: &str) -> (r: bool)
    ensures
        r == contains_seq(s@, pat@),
{
    let x = chars_of(s);
    let p = chars_of(pat);
    if p.len() > x.len() {
        return false;
    }
    let last = x.len() - p.len();
    for i in 0..last
        invariant
            x@ == s@,
            p@ == pat@,
            last == x@.len() - p@.len(),
            p@.len() <= x@.len(),
            forall|k: int| 0 <= k < i ==> !occurs_at(x@, p@, k),
    {
        if occurs_at_exec(&x, &p, i) {
            assert(s@.subrange(i as int, i + pat@.len()) == pat@);
            return true;
        }
    }
    if occurs_at_exec(&x, &p, last) {
        assert(s@.subrange(last as int, last + pat@.len()) == pat@);
        return true;
    }
    assert forall|k: int| 0 <= k && k + pat@.len() <= s@.len() implies #[trigger] s@.subrange(k, k + pat@.len()) != pat@ by {
        assert(!occurs_at(x@, p@, k));
    }
    false
}

/// `p` is a prefix of `s`.
pub open spec fn starts_with(s: Seq<char>, p: Seq<char>) -> bool {
    p.len() <= s.len() && s.take(p.len() as int) == p
}

/// `str::starts_with` for a string pattern.
pub fn str_starts_with(s: &str, p: &str) -> (r: bool)
    ensures
        r == starts_with(s@, p@),
{
    let x = chars_of(s);
    let q = chars_of(p);
    if q.len() > x.len() {
        return false;
    }
    let r = occurs_at_exec(&x, &q, 0);
    assert(x@.subrange(0, q@.len() as int) =~= x@.take(q@.len() as int));
    r
}

/// Number of leading characters of `s` that satisfy `strip`.
pub open spec fn leading_count(s: Seq<char>, strip: spec_fn(char) -> bool) -> nat
    decreases s.len(),
{
    if s.len() == 0 || !strip(s[0]) {
        0
    } else {
        1 + leading_count(s.drop_first(), strip)
    }
}

/// Number of trailing characters of `s` that satisfy `strip`.
pub open spec fn trailing_count(s: Seq<char>, strip: spec_fn(char) -> bool) -> nat
    decreases s.len(),
{
    if s.len() == 0 || !strip(s.last()) {
        0
    } else {
        1 + trailing_count(s.drop_last(), strip)
    }
}

proof fn lemma_leading_count(s: Seq<char>, strip: spec_fn(char) -> bool, i: int)
    requires
        0 <= i <= s.len(),
        forall|k: int| 0 <= k < i ==> strip(#[trigger] s[k]),
        i == s.len() || !strip(s[i]),
    ensures
        leading_count(s, strip) == i,
    decreases i,
{
    if i > 0 {
        lemma_leading_count(s.drop_first(), strip, i - 1);
    }
}

proof fn lemma_trailing_count(s: Seq<char>, strip: spec_fn(char) -> bool, i: int)
    requires
        0 <= i <= s.len(),
        forall|k: int| s.len() - i <= k < s.len() ==> strip(#[trigger] s[k]),
        i == s.len() || !strip(s[s.len() - i - 1]),
    ensures
        trailing_count(s, strip) == i,
    decreases i,
{
    if i > 0 {
        lemma_trailing_count(s.drop_last(), strip, i - 1);
    }
}

proof fn lemma_leading_count_bound(s: Seq<char>, strip: spec_fn(char) -> bool)
    ensures
        leading_count(s, strip) <= s.len(),
    decreases s.len(),
{
    if s.len() > 0 {
        lemma_leading_count_bound(s.drop_first(), strip);
    }
}

/// The predicate "is a whitespace character".
pub open spec fn whitespace_pred() -> spec_fn(char) -> bool {
    |c: char| spec_is_whitespace(c)
}

/// The predicate "is the character `c`".
pub open spec fn char_pred(c: char) -> spec_fn(char) -> bool {
    |x: char| x == c
}

/// The spec of `str::trim`: leading and trailing whitespace removed.
pub open spec fn trim_seq(s: Seq<char>) -> Seq<char> {
    let ws = whitespace_pred();
    let lead = leading_count(s, ws);
    let rest = s.skip(lead as int);
    rest.take(rest.len() - trailing_count(rest, ws))
}

/// Removes leading and trailing whitespace, as `str::trim` does.
pub fn trim(s: &str) -> (r: String)
    ensures
        r@ == trim_seq(s@),
{
    let ghost ws = whitespace_pred();
    let x = chars_of(s);
    let n = x.len();
    let mut lo: usize = 0;
    while lo < n && is_whitespace(x[lo])
        invariant
            n == x@.len(),
            lo <= n,
            ws == whitespace_pred(),
            forall|k: int| 0 <= k < lo ==> ws(#[trigger] x@[k]),
        decreases n - lo,
    {
        lo = lo + 1;
    }
    proof {
        lemma_leading_count(x@, ws, lo as int);
    }
    let ghost rest = x@.skip(lo as int);
    let mut t: usize = 0;
    while t < n - lo && is_whitespace(x[n - 1 - t])
        invariant
            n == x@.len(),
            lo <= n,
            rest == x@.skip(lo as int),
            ws == whitespace_pred(),
            t <= n - lo,
            forall|k: int| rest.len() - t <= k < rest.len() ==> ws(#[trigger] rest[k]),
        decreases n - lo - t,
    {
        assert(rest[rest.len() - t - 1] == x@[n - 1 - t]);
        t = t + 1;
    }
    proof {
        if t < n - lo {
            assert(rest[rest.len() - t - 1] == x@[n - 1 - t]);
        }
        lemma_trailing_count(rest, ws, t as int);
    }
    let mut out = String::new();
    let mut i = lo;
    while i < n - t
        invariant
            n == x@.len(),
            lo <= i <= n - t,
            t <= n - lo,
            out@ == x@.subrange(lo as int, i as int),
        decreases n - t - i,
    {
        push_char(&mut out, x[i]);
        assert(x@.subrange(lo as int, i + 1) =~= x@.subrange(lo as int, i as int).push(x@[i as int]));
        i = i + 1;
    }
    assert(out@ =~= trim_seq(s@));
    out
}

/// The spec of `str::trim_start_matches` with one character: every leading `c` removed.
pub open spec fn trim_start_char(s: Seq<char>, c: char) -> Seq<char> {
    s.skip(leading_count(s, char_pred(c)) as int)
}

/// Removes every leading occurrence of `c`, as `str::trim_start_matches(c)` does.
pub fn trim_start_char_exec(s: &str, c: char) -> (r: String)
    ensures
        r@ == trim_start_char(s@, c),
{
    let ghost is_c = char_pred(c);
    let x = chars_of(s);
    let n = x.len();
    let mut lo: usize = 0;
    while lo < n && x[lo] == c
        invariant
            n == x@.len(),
            lo <= n,
            is_c == char_pred(c),
            forall|k: int| 0 <= k < lo ==> is_c(#[trigger] x@[k]),
        decreases n - lo,
    {
        lo = lo + 1;
    }
    proof {
        lemma_leading_count(x@, is_c, lo as int);
    }
    let mut out = String::new();
    let mut i = lo;
    while i < n
        invariant
            n == x@.len(),
            lo <= i <= n,
            out@ == x@.subrange(lo as int, i as int),
        decreases n - i,
    {
        push_char(&mut out, x[i]);
        assert(x@.subrange(lo as int, i + 1) =~= x@.subrange(lo as int, i as int).push(x@[i as int]));
        i = i + 1;
    }
    assert(out@ =~= trim_start_char(s@, c));
    out
}

/// The sequence with every character that satisfies `drop` removed.
pub open spec fn remove_where(s: Seq<char>, drop: spec_fn(char) -> bool) -> Seq<char>
    decreases s.len(),
{
    if s.len() == 0 {
        Seq::empty()
    } else if drop(s.last()) {
        remove_where(s.drop_last(), drop)
    } else {
        remove_where(s.drop_last(), drop).push(s.last())
    }
}

/// Whether `v` equals one of the strings of `list`, as `Vec::contains` does.
pub fn list_contains(list: &Vec<String>, v: &str) -> (r: bool)
    ensures
        r == exists|i: int| 0 <= i < list@.len() && (#[trigger] list@[i])@ == v@,
{
    let n = list.len();
    for i in 0..n
        invariant
            n == list@.len(),
            forall|k: int| 0 <= k < i ==> (#[trigger] list@[k])@ != v@,
    {
        if str_eq(list[i].as_str(), v) {
            return true;
        }
    }
    false
}

} // verus!

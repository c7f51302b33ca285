//! Character-level helpers: the text operations that the parser and the
//! renderers need, each with its meaning stated over `Seq<char>`.
use vstd::prelude::*;
use vstd::string::*;

verus! {

// ---------------------------------------------------------------------------
// Conversions between `str`/`String` and character vectors
// ---------------------------------------------------------------------------

/// The characters of `s`, in order.
pub fn chars_of(s: &str) -> (r: Vec<char>)
    ensures
        r@ == s@,
{
    let mut r: Vec<char> = Vec::new();
    for c in it: s.chars()
        invariant
            r@ == it.seq().take(it.index()),
            it.seq() == s@,
    {
        r.push(c);
    }
    r
}

/// Appends one character to a string by `String::push`; the contract, taken
/// on trust from std's documentation, says the characters afterwards are the
/// old ones followed by `c`.
#[verifier::external_body]
pub(crate) fn push_char(s: &mut String, c: char)
    ensures
        final(s)@ == old(s)@.push(c),
{
    s.push(c);
}

/// Whether two string slices hold the same characters.
pub fn str_eq(a: &str, b: &str) -> (r: bool)
    ensures
        r == (a@ == b@),
{
    let x = chars_of(a);
    let y = chars_of(b);
    if x.len() != y.len() {
        return false;
    }
    let mut i: usize = 0;
    while i < x.len()
        invariant
            x@ == a@,
            y@ == b@,
            x@.len() == y@.len(),
            i <= x@.len(),
            forall|k: int| 0 <= k < i ==> x@[k] == y@[k],
        decreases x@.len() - i,
    {
        if x[i] != y[i] {
            assert(a@[i as int] != b@[i as int]);
            return false;
        }
        i = i + 1;
    }
    assert(x@ =~= y@);
    true
}

/// Appends `v[from..to]` to `out`.
pub fn push_chars(out: &mut String, v: &Vec<char>, from: usize, to: usize)
    requires
        from <= to <= v@.len(),
    ensures
        final(out)@ == old(out)@ + v@.subrange(from as int, to as int),
{
    let mut i = from;
    while i < to
        invariant
            from <= i <= to <= v@.len(),
            out@ == old(out)@ + v@.subrange(from as int, i as int),
        decreases to - i,
    {
        push_char(out, v[i]);
        i = i + 1;
        assert(v@.subrange(from as int, i as int) == v@.subrange(from as int, i - 1).push(v@[i - 1]));
    }
}

/// A new string holding `v[from..to]`.
pub fn string_from_chars(v: &Vec<char>, from: usize, to: usize) -> (r: String)
    requires
        from <= to <= v@.len(),
    ensures
        r@ == v@.subrange(from as int, to as int),
{
    let mut r = String::new();
    push_chars(&mut r, v, from, to);
    r
}

/// A new string holding the characters of `s`.
pub fn string_of(s: &str) -> (r: String)
    ensures
        r@ == s@,
{
    String::from_str(s)
}

// ---------------------------------------------------------------------------
// Decimal numerals
// ---------------------------------------------------------------------------

/// The ASCII digit for `d` (`d < 10`).
pub open spec fn digit_char(d: nat) -> char {
    (d + 48) as char
}

/// The decimal numeral of `n`, without sign or leading zeros.
pub open spec fn decimal(n: nat) -> Seq<char>
    decreases n,
{
    if n < 10 {
        seq![digit_char(n)]
    } else {
        decimal(n / 10).push(digit_char(n % 10))
    }
}

fn exec_digit_char(d: u64) -> (c: char)
    requires
        d < 10,
    ensures
        c == digit_char(d as nat),
{
    ((d as u8) + 48u8) as char
}

/// Appends the decimal numeral of `n` to `out` (what `{}` formatting of an
/// unsigned integer writes).
pub fn push_decimal(out: &mut String, n: u64)
    ensures
        final(out)@ == old(out)@ + decimal(n as nat),
    decreases n,
{
    if n >= 10 {
        push_decimal(out, n / 10);
    }
    push_char(out, exec_digit_char(n % 10));
}

// ---------------------------------------------------------------------------
// Newlines
// ---------------------------------------------------------------------------

/// How many newline characters `s` holds.
pub open spec fn newline_count(s: Seq<char>) -> nat
    decreases s.len(),
{
    if s.len() == 0 {
        0
    } else {
        newline_count(s.drop_last()) + if s.last() == '\n' {
            1nat
        } else {
            0nat
        }
    }
}

/// Counting the newlines of a prefix one character further.
pub proof fn lemma_newline_count_step(s: Seq<char>, p: int)
    requires
        0 <= p < s.len(),
    ensures
        newline_count(s.take(p + 1)) == newline_count(s.take(p)) + if s[p] == '\n' {
            1nat
        } else {
            0nat
        },
{
    assert(s.take(p + 1).drop_last() =~= s.take(p));
}

/// A prefix holds no more newlines than the whole.
pub proof fn lemma_newline_count_prefix(s: Seq<char>, p: int)
    requires
        0 <= p <= s.len(),
    ensures
        newline_count(s.take(p)) <= newline_count(s),
    decreases s.len() - p,
{
    if p < s.len() {
        lemma_newline_count_step(s, p);
        lemma_newline_count_prefix(s, p + 1);
    } else {
        assert(s.take(p) =~= s);
    }
}

/// A stretch without newlines adds none to the count of a prefix.
pub proof fn lemma_newline_count_flat(s: Seq<char>, a: int, b: int)
    requires
        0 <= a <= b <= s.len(),
        forall|k: int| a <= k < b ==> #[trigger] s[k] != '\n',
    ensures
        newline_count(s.take(b)) == newline_count(s.take(a)),
    decreases b - a,
{
    if a < b {
        lemma_newline_count_step(s, b - 1);
        lemma_newline_count_flat(s, a, b - 1);
    }
}

// ---------------------------------------------------------------------------
// Whitespace and trimming
// ---------------------------------------------------------------------------

/// Unicode `White_Space`, as `char::is_whitespace` decides it.
pub open spec fn is_white(c: char) -> bool {
    let u = c as u32;
    ||| 0x09 <= u <= 0x0d
    ||| u == 0x20
    ||| u == 0x85
    ||| u == 0xa0
    ||| u == 0x1680
    ||| 0x2000 <= u <= 0x200a
    ||| u == 0x2028
    ||| u == 0x2029
    ||| u == 0x202f
    ||| u == 0x205f
    ||| u == 0x3000
}

pub fn exec_is_white(c: char) -> (r: bool)
    ensures
        r == is_white(c),
{
    let u = c as u32;
    (0x09 <= u && u <= 0x0d) || u == 0x20 || u == 0x85 || u == 0xa0 || u == 0x1680 || (0x2000
        <= u && u <= 0x200a) || u == 0x2028 || u == 0x2029 || u == 0x202f || u == 0x205f || u
        == 0x3000
}

/// `s` without its leading whitespace.
pub open spec fn trim_start(s: Seq<char>) -> Seq<char>
    decreases s.len(),
{
    if s.len() > 0 && is_white(s[0]) {
        trim_start(s.drop_first())
    } else {
        s
    }
}

/// `s` without its trailing whitespace.
pub open spec fn trim_end(s: Seq<char>) -> Seq<char>
    decreases s.len(),
{
    if s.len() > 0 && is_white(s.last()) {
        trim_end(s.drop_last())
    } else {
        s
    }
}

/// `s` without leading and trailing whitespace (`str::trim`).
pub open spec fn trim(s: Seq<char>) -> Seq<char> {
    trim_end(trim_start(s))
}

proof fn lemma_trim_start_skip(s: Seq<char>, i: int)
    requires
        0 <= i <= s.len(),
        forall|k: int| 0 <= k < i ==> is_white(#[trigger] s[k]),
    ensures
        trim_start(s) == trim_start(s.skip(i)),
    decreases i,
{
    if i > 0 {
        assert(s.drop_first().skip(i - 1) == s.skip(i));
        lemma_trim_start_skip(s.drop_first(), i - 1);
    } else {
        assert(s.skip(0) == s);
    }
}

proof fn lemma_trim_end_take(s: Seq<char>, j: int)
    requires
        0 <= j <= s.len(),
        forall|k: int| j <= k < s.len() ==> is_white(#[trigger] s[k]),
    ensures
        trim_end(s) == trim_end(s.take(j)),
    decreases s.len() - j,
{
    if j < s.len() {
        assert(s.drop_last().take(j) == s.take(j));
        lemma_trim_end_take(s.drop_last(), j);
    } else {
        assert(s.take(j) == s);
    }
}

/// The bounds of `trim(v[from..to])` inside `v`.
pub fn trim_bounds(v: &Vec<char>, from: usize, to: usize) -> (r: (usize, usize))
    requires
        from <= to <= v@.len(),
    ensures
        from <= r.0 <= r.1 <= to,
        v@.subrange(r.0 as int, r.1 as int) == trim(v@.subrange(from as int, to as int)),
{
    let ghost s = v@.subrange(from as int, to as int);
    let mut i = from;
    while i < to && exec_is_white(v[i])
        invariant
            from <= i <= to <= v@.len(),
            forall|k: int| from <= k < i ==> is_white(#[trigger] v@[k]),
        decreases to - i,
    {
        i = i + 1;
    }
    proof {
        assert forall|k: int| 0 <= k < i - from implies is_white(#[trigger] s[k]) by {
            assert(s[k] == v@[from + k]);
        }
        lemma_trim_start_skip(s, i - from);
        assert(s.skip(i - from) == v@.subrange(i as int, to as int));
    }
    let ghost t = v@.subrange(i as int, to as int);
    assert(trim_start(s) == t);
    assert(trim_start(t) == t) by {
        if t.len() > 0 {
            assert(t[0] == v@[i as int]);
        }
    }
    let mut j = to;
    while j > i && exec_is_white(v[j - 1])
        invariant
            from <= i <= j <= to <= v@.len(),
            forall|k: int| j <= k < to ==> is_white(#[trigger] v@[k]),
        decreases j - i,
    {
        j = j - 1;
    }
    proof {
        assert forall|k: int| j - i <= k < t.len() implies is_white(#[trigger] t[k]) by {
            assert(t[k] == v@[i + k]);
        }
        lemma_trim_end_take(t, j - i);
        assert(t.take(j - i) == v@.subrange(i as int, j as int));
        let u = v@.subrange(i as int, j as int);
        if u.len() > 0 {
            assert(u.last() == v@[j - 1]);
        }
    }
    (i, j)
}

// ---------------------------------------------------------------------------
// Searching
// ---------------------------------------------------------------------------

/// Whether `s` begins with `p`.
pub open spec fn starts_with(s: Seq<char>, p: Seq<char>) -> bool {
    p.len() <= s.len() && s.take(p.len() as int) == p
}

/// Whether `p` occurs in `s` at position `i`.
pub open spec fn occurs_at(s: Seq<char>, p: Seq<char>, i: int) -> bool {
    0 <= i && i + p.len() <= s.len() && s.subrange(i, i + p.len()) == p
}

/// Whether `p` occurs in `s` (`str::contains`).
pub open spec fn contains(s: Seq<char>, p: Seq<char>) -> bool {
    exists|i: int| occurs_at(s, p, i)
}

/// A piece of a concatenation occurs in it.
pub proof fn lemma_contains_piece(a: Seq<char>, x: Seq<char>, b: Seq<char>)
    ensures
        contains(a + x + b, x),
{
    let s = a + x + b;
    assert(s.subrange(a.len() as int, (a.len() + x.len()) as int) =~= x);
    assert(occurs_at(s, x, a.len() as int));
}

/// What occurs in a piece occurs in anything made with that piece.
pub proof fn lemma_contains_within(a: Seq<char>, m: Seq<char>, b: Seq<char>, x: Seq<char>)
    requires
        contains(m, x),
    ensures
        contains(a + m + b, x),
{
    let i = choose|i: int| occurs_at(m, x, i);
    let s = a + m + b;
    assert(s.subrange(a.len() + i, a.len() + i + x.len()) =~= m.subrange(i, i + x.len()));
    assert(occurs_at(s, x, a.len() + i));
}

/// Each of six pieces occurs in their concatenation.
pub proof fn lemma_contains_each_of_six(
    l1: Seq<char>,
    l2: Seq<char>,
    l3: Seq<char>,
    l4: Seq<char>,
    l5: Seq<char>,
    l6: Seq<char>,
)
    ensures
        contains(l1 + l2 + l3 + l4 + l5 + l6, l1),
        contains(l1 + l2 + l3 + l4 + l5 + l6, l2),
        contains(l1 + l2 + l3 + l4 + l5 + l6, l3),
        contains(l1 + l2 + l3 + l4 + l5 + l6, l4),
        contains(l1 + l2 + l3 + l4 + l5 + l6, l5),
        contains(l1 + l2 + l3 + l4 + l5 + l6, l6),
{
    let all = l1 + l2 + l3 + l4 + l5 + l6;
    lemma_contains_piece(Seq::empty(), l1, l2 + l3 + l4 + l5 + l6);
    assert(Seq::<char>::empty() + l1 + (l2 + l3 + l4 + l5 + l6) =~= all);
    lemma_contains_piece(l1, l2, l3 + l4 + l5 + l6);
    assert(l1 + l2 + (l3 + l4 + l5 + l6) =~= all);
    lemma_contains_piece(l1 + l2, l3, l4 + l5 + l6);
    assert(l1 + l2 + l3 + (l4 + l5 + l6) =~= all);
    lemma_contains_piece(l1 + l2 + l3, l4, l5 + l6);
    assert(l1 + l2 + l3 + l4 + (l5 + l6) =~= all);
    lemma_contains_piece(l1 + l2 + l3 + l4, l5, l6);
    lemma_contains_piece(l1 + l2 + l3 + l4 + l5, l6, Seq::empty());
    assert(l1 + l2 + l3 + l4 + l5 + l6 + Seq::<char>::empty() =~= all);
}

/// What occurs in a text that occurs in `s` occurs in `s`.
pub proof fn lemma_contains_trans(s: Seq<char>, m: Seq<char>, x: Seq<char>)
    requires
        contains(s, m),
        contains(m, x),
    ensures
        contains(s, x),
{
    let i = choose|i: int| occurs_at(s, m, i);
    let j = choose|j: int| occurs_at(m, x, j);
    assert(s.subrange(i + j, i + j + x.len()) =~= m.subrange(j, j + x.len()));
    assert(occurs_at(s, x, i + j));
}

/// Whether `v[from..to]` begins with `p`.
pub fn exec_starts_with(v: &Vec<char>, from: usize, to: usize, p: &Vec<char>) -> (r: bool)
    requires
        from <= to <= v@.len(),
    ensures
        r == starts_with(v@.subrange(from as int, to as int), p@),
{
    let ghost s = v@.subrange(from as int, to as int);
    if p.len() > to - from {
        return false;
    }
    let mut k: usize = 0;
    while k < p.len()
        invariant
            k <= p@.len() <= to - from,
            from <= to <= v@.len(),
            s == v@.subrange(from as int, to as int),
            forall|m: int| 0 <= m < k ==> v@[from + m] == p@[m],
        decreases p@.len() - k,
    {
        if v[from + k] != p[k] {
            assert(s.take(p@.len() as int)[k as int] != p@[k as int]);
            return false;
        }
        k = k + 1;
    }
    assert(s.take(p@.len() as int) == p@);
    true
}

/// Whether `p` occurs in `v[from..to]`.
pub fn exec_contains(v: &Vec<char>, from: usize, to: usize, p: &Vec<char>) -> (r: bool)
    requires
        from <= to <= v@.len(),
    ensures
        r == contains(v@.subrange(from as int, to as int), p@),
{
    let ghost s = v@.subrange(from as int, to as int);
    let mut i = from;
    loop
        invariant_except_break
            from <= i <= to <= v@.len(),
            s == v@.subrange(from as int, to as int),
            forall|k: int| 0 <= k < i - from ==> !occurs_at(s, p@, k),
        ensures
            forall|k: int| 0 <= k <= to - from ==> !occurs_at(s, p@, k),
        decreases to - i,
    {
        let ghost rest = v@.subrange(i as int, to as int);
        if exec_starts_with(v, i, to, p) {
            assert(rest.take(p@.len() as int) =~= s.subrange(i - from, i - from + p@.len()));
            assert(occurs_at(s, p@, i - from));
            return true;
        }
        assert(!occurs_at(s, p@, i - from)) by {
            if occurs_at(s, p@, i - from) {
                assert(rest.take(p@.len() as int) =~= s.subrange(i - from, i - from + p@.len()));
            }
        }
        if i == to {
            break;
        }
        i = i + 1;
    }
    assert(!contains(s, p@)) by {
        assert forall|k: int| !occurs_at(s, p@, k) by {
            if occurs_at(s, p@, k) {
                assert(0 <= k <= to - from);
            }
        }
    }
    false
}

/// The last position of `c` in `s` (`str::rfind` with a `char`).
pub open spec fn rfind(s: Seq<char>, c: char) -> Option<int>
    decreases s.len(),
{
    if s.len() == 0 {
        None
    } else if s.last() == c {
        Some(s.len() - 1)
    } else {
        rfind(s.drop_last(), c)
    }
}

/// The last position of `c` in `v[from..to]`, counted from `from`.
pub fn exec_rfind(v: &Vec<char>, from: usize, to: usize, c: char) -> (r: Option<usize>)
    requires
        from <= to <= v@.len(),
    ensures
        r matches Some(k) ==> rfind(v@.subrange(from as int, to as int), c) == Some(k as int),
        r is None ==> rfind(v@.subrange(from as int, to as int), c) is None,
{
    let mut j = to;
    while j > from
        invariant
            from <= j <= to <= v@.len(),
            rfind(v@.subrange(from as int, to as int), c) == rfind(
                v@.subrange(from as int, j as int),
                c,
            ),
        decreases j - from,
    {
        let ghost t = v@.subrange(from as int, j as int);
        assert(t.last() == v@[j - 1]);
        if v[j - 1] == c {
            return Some(j - 1 - from);
        }
        assert(t.drop_last() == v@.subrange(from as int, j - 1));
        j = j - 1;
    }
    None
}

// ---------------------------------------------------------------------------
// Splitting
// ---------------------------------------------------------------------------

/// The pieces of `s` between occurrences of `c` (`str::split` with a `char`):
/// always at least one piece, an empty one for each separator at an end.
pub open spec fn split(s: Seq<char>, c: char) -> Seq<Seq<char>>
    decreases s.len(),
{
    if s.len() == 0 {
        seq![Seq::<char>::empty()]
    } else {
        let r = split(s.drop_last(), c);
        if s.last() == c {
            r.push(Seq::<char>::empty())
        } else {
            r.update(r.len() - 1, r.last().push(s.last()))
        }
    }
}

proof fn lemma_split_nonempty(s: Seq<char>, c: char)
    ensures
        split(s, c).len() >= 1,
    decreases s.len(),
{
    if s.len() > 0 {
        lemma_split_nonempty(s.drop_last(), c);
    }
}

/// The bounds, within `v`, of the pieces of `v[from..to]` between occurrences of `c`.
pub fn split_bounds(v: &Vec<char>, from: usize, to: usize, c: char) -> (r: Vec<(usize, usize)>)
    requires
        from <= to <= v@.len(),
    ensures
        r@.len() == split(v@.subrange(from as int, to as int), c).len(),
        forall|k: int|
            0 <= k < r@.len() ==> {
                &&& from <= (#[trigger] r@[k]).0 <= r@[k].1 <= to
                &&& v@.subrange(r@[k].0 as int, r@[k].1 as int) == split(
                    v@.subrange(from as int, to as int),
                    c,
                )[k]
            },
{
    let mut r: Vec<(usize, usize)> = Vec::new();
    let mut start = from;
    let mut i = from;
    while i < to
        invariant
            from <= start <= i <= to <= v@.len(),
            r@.len() + 1 == split(v@.subrange(from as int, i as int), c).len(),
            forall|k: int|
                0 <= k < r@.len() ==> {
                    &&& from <= (#[trigger] r@[k]).0 <= r@[k].1 <= i
                    &&& v@.subrange(r@[k].0 as int, r@[k].1 as int) == split(
                        v@.subrange(from as int, i as int),
                        c,
                    )[k]
                },
            v@.subrange(start as int, i as int) == split(v@.subrange(from as int, i as int), c).last(),
        decreases to - i,
    {
        let ghost s = v@.subrange(from as int, i + 1);
        let ghost prev = split(v@.subrange(from as int, i as int), c);
        assert(s.drop_last() == v@.subrange(from as int, i as int));
        assert(s.last() == v@[i as int]);
        proof {
            lemma_split_nonempty(v@.subrange(from as int, i as int), c);
        }
        if v[i] == c {
            r.push((start, i));
            start = i + 1;
            i = i + 1;
            assert(split(s, c) == prev.push(Seq::<char>::empty()));
            assert(v@.subrange(start as int, i as int) =~= Seq::<char>::empty());
        } else {
            i = i + 1;
            assert(split(s, c) == prev.update(prev.len() - 1, prev.last().push(v@[i - 1])));
            assert(v@.subrange(start as int, i as int) == v@.subrange(start as int, i - 1).push(
                v@[i - 1],
            ));
        }
    }
    r.push((start, i));
    proof {
        lemma_split_nonempty(v@.subrange(from as int, to as int), c);
    }
    r
}

// ---------------------------------------------------------------------------
// Unsigned 16-bit numerals
// ---------------------------------------------------------------------------

/// Whether `c` is an ASCII digit.
pub open spec fn is_digit(c: char) -> bool {
    '0' <= c <= '9'
}

/// The value of a string of ASCII digits.
pub open spec fn digits_value(s: Seq<char>) -> nat
    decreases s.len(),
{
    if s.len() == 0 {
        0
    } else {
        digits_value(s.drop_last()) * 10 + ((s.last() as nat) - 48) as nat
    }
}

/// The value of a nonempty string of ASCII digits, if it fits in 16 bits.
pub open spec fn u16_digits(d: Seq<char>) -> Option<u16> {
    if d.len() > 0 && (forall|k: int| 0 <= k < d.len() ==> is_digit(#[trigger] d[k]))
        && digits_value(d) <= u16::MAX {
        Some(digits_value(d) as u16)
    } else {
        None
    }
}

/// What `str::parse::<u16>` gives: an optional `+`, then one or more ASCII
/// digits whose value fits in 16 bits.
pub open spec fn parse_u16(s: Seq<char>) -> Option<u16> {
    if s.len() > 0 && s[0] == '+' {
        u16_digits(s.drop_first())
    } else {
        u16_digits(s)
    }
}

proof fn lemma_digits_value_monotone(s: Seq<char>, j: int)
    requires
        0 <= j <= s.len(),
        forall|k: int| 0 <= k < s.len() ==> is_digit(#[trigger] s[k]),
    ensures
        digits_value(s.take(j)) <= digits_value(s),
    decreases s.len() - j,
{
    if j < s.len() {
        assert(s.drop_last().take(j) == s.take(j));
        lemma_digits_value_monotone(s.drop_last(), j);
    } else {
        assert(s.take(j) == s);
    }
}

/// `str::parse::<u16>` on `v[from..to]`.
pub fn exec_parse_u16(v: &Vec<char>, from: usize, to: usize) -> (r: Option<u16>)
    requires
        from <= to <= v@.len(),
    ensures
        r == parse_u16(v@.subrange(from as int, to as int)),
{
    let ghost s = v@.subrange(from as int, to as int);
    let mut start = from;
    if start < to && v[start] == '+' {
        start = start + 1;
    }
    let ghost d = v@.subrange(start as int, to as int);
    assert(parse_u16(s) == u16_digits(d)) by {
        if s.len() > 0 && s[0] == '+' {
            assert(s.drop_first() =~= d);
        } else {
            assert(s =~= d);
        }
    }
    if start == to {
        return None;
    }
    let mut value: u32 = 0;
    let mut i = start;
    while i < to
        invariant
            from <= start <= i <= to <= v@.len(),
            d == v@.subrange(start as int, to as int),
            parse_u16(v@.subrange(from as int, to as int)) == u16_digits(d),
            forall|k: int| start <= k < i ==> is_digit(#[trigger] v@[k]),
            value as nat == digits_value(v@.subrange(start as int, i as int)),
            value <= u16::MAX,
        decreases to - i,
    {
        let c = v[i];
        if !('0' <= c && c <= '9') {
            assert(d[i - start] == c);
            assert(!is_digit(d[i - start]));
            return None;
        }
        let ghost t = v@.subrange(start as int, i + 1);
        assert(t.drop_last() == v@.subrange(start as int, i as int));
        assert(t.last() == c);
        let next = value * 10 + ((c as u32) - 48);
        assert(digits_value(t) == next);
        i = i + 1;
        if next > 65535 {
            proof {
                if forall|k: int| 0 <= k < d.len() ==> is_digit(#[trigger] d[k]) {
                    lemma_digits_value_monotone(d, i - start);
                    assert(d.take(i - start) =~= t);
                }
            }
            return None;
        }
        value = next;
    }
    assert(d == v@.subrange(start as int, i as int));
    Some(value as u16)
}

} // verus!

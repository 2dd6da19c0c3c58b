//! Text as a sequence of characters: trimming, searching and splitting.

use vstd::prelude::*;
use vstd::slice::slice_subrange;

verus! {

/// `String::push` appends one character to the end of the string and changes nothing else.
pub assume_specification[ String::push ](s: &mut String, ch: char)
    ensures
        final(s)@ == old(s)@.push(ch),
;

/// A set of characters that can be trimmed from the ends of a text.
#[derive(Clone, Copy)]
pub enum CharClass {
    /// The characters with the Unicode property `White_Space`.
    Whitespace,
    /// Carriage return and line feed.
    LineBreak,
    /// One character.
    Only(char),
}

/// Whether `c` has the Unicode property `White_Space`.
pub open spec fn is_white_space(c: char) -> bool {
    let n = c as u32;
    ||| 0x09 <= n <= 0x0d
    ||| n == 0x20
    ||| n == 0x85
    ||| n == 0xa0
    ||| n == 0x1680
    ||| 0x2000 <= n <= 0x200a
    ||| n == 0x2028
    ||| n == 0x2029
    ||| n == 0x202f
    ||| n == 0x205f
    ||| n == 0x3000
}

impl CharClass {
    /// Whether `c` belongs to the class.
    pub open spec fn has(self, c: char) -> bool {
        match self {
            CharClass::Whitespace => is_white_space(c),
            CharClass::LineBreak => c == '\r' || c == '\n',
            CharClass::Only(d) => c == d,
        }
    }

    /// Whether `c` belongs to the class.
    pub fn contains(self, c: char) -> (r: bool)
        ensures
            r == self.has(c),
    {
        match self {
            CharClass::Whitespace => {
                let n: u32 = c as u32;
                (0x09 <= n && n <= 0x0d) || n == 0x20 || n == 0x85 || n == 0xa0 || n == 0x1680 || (
                0x2000 <= n && n <= 0x200a) || n == 0x2028 || n == 0x2029 || n == 0x202f || n
                    == 0x205f || n == 0x3000
            },
            CharClass::LineBreak => c == '\r' || c == '\n',
            CharClass::Only(d) => c == d,
        }
    }
}

/// `s` without its leading characters of class `k`.
pub open spec fn trimmed_start(s: Seq<char>, k: CharClass) -> Seq<char>
    decreases s.len(),
{
    if s.len() > 0 && k.has(s[0]) {
        trimmed_start(s.drop_first(), k)
    } else {
        s
    }
}

/// `s` without its trailing characters of class `k`.
pub open spec fn trimmed_end(s: Seq<char>, k: CharClass) -> Seq<char>
    decreases s.len(),
{
    if s.len() > 0 && k.has(s.last()) {
        trimmed_end(s.drop_last(), k)
    } else {
        s
    }
}

/// `s` without its leading and trailing characters of class `k`.
pub open spec fn trimmed(s: Seq<char>, k: CharClass) -> Seq<char> {
    trimmed_end(trimmed_start(s, k), k)
}

/// Whether `p` stands in `s` at index `i`.
pub open spec fn occurs_at(s: Seq<char>, p: Seq<char>, i: int) -> bool {
    &&& 0 <= i
    &&& i + p.len() <= s.len()
    &&& s.subrange(i, i + p.len()) == p
}

/// Whether `i` is the first index at which `p` stands in `s`.
pub open spec fn occurs_first_at(s: Seq<char>, p: Seq<char>, i: int) -> bool {
    &&& occurs_at(s, p, i)
    &&& forall|j: int| 0 <= j < i ==> !occurs_at(s, p, j)
}

/// The first index at which `p` stands in `s`.
pub open spec fn first_occurrence(s: Seq<char>, p: Seq<char>) -> Option<int> {
    if exists|i: int| occurs_first_at(s, p, i) {
        Some(choose|i: int| occurs_first_at(s, p, i))
    } else {
        None
    }
}

/// The pieces of `s` between the occurrences of `c`; there is always at least one.
pub open spec fn split_on(s: Seq<char>, c: char) -> Seq<Seq<char>>
    decreases s.len(),
{
    if s.len() == 0 {
        seq![Seq::<char>::empty()]
    } else {
        let before = split_on(s.drop_last(), c);
        if s.last() == c {
            before.push(Seq::empty())
        } else {
            before.drop_last().push(before.last().push(s.last()))
        }
    }
}

/// `s` without `suffix` at its end, however often it stands there.
pub open spec fn without_suffix(s: Seq<char>, suffix: Seq<char>) -> Seq<char>
    decreases s.len(),
{
    if suffix.len() > 0 && suffix.is_suffix_of(s) {
        without_suffix(s.take(s.len() - suffix.len()), suffix)
    } else {
        s
    }
}

/// `c` with the letters `A` to `Z` replaced by their lower-case forms.
pub open spec fn ascii_lower(c: char) -> char {
    if 'A' <= c <= 'Z' {
        ((c as u32 + 32) as u32) as char
    } else {
        c
    }
}

/// Whether `a` and `b` are equal up to the case of ASCII letters.
pub open spec fn same_ignoring_ascii_case(a: Seq<char>, b: Seq<char>) -> bool {
    &&& a.len() == b.len()
    &&& forall|i: int| 0 <= i < a.len() ==> ascii_lower(a[i]) == ascii_lower(b[i])
}

/// The characters of `s`.
pub fn chars_of(s: &str) -> (r: Vec<char>)
    ensures
        r@ == s@,
{
    let mut r: Vec<char> = Vec::new();
    for c in it: s.chars()
        invariant
            it.seq() == s@,
            r@ == s@.take(it.index() as int),
    {
        r.push(c);
    }
    r
}

/// The string made of the characters `s`.
pub fn string_of(s: &[char]) -> (r: String)
    ensures
        r@ == s@,
{
    let mut r = String::new();
    let mut i: usize = 0;
    while i < s.len()
        invariant
            i <= s.len(),
            r@ == s@.take(i as int),
        decreases s.len() - i,
    {
        r.push(s[i]);
        i += 1;
    }
    r
}

/// Drops the leading characters of class `k`.
pub fn trim_start<'a>(s: &'a [char], k: CharClass) -> (r: &'a [char])
    ensures
        r@ == trimmed_start(s@, k),
{
    let mut i: usize = 0;
    assert(s@.skip(0) == s@);
    while i < s.len() && k.contains(s[i])
        invariant
            i <= s.len(),
            trimmed_start(s@.skip(i as int), k) == trimmed_start(s@, k),
        decreases s.len() - i,
    {
        assert(s@.skip(i as int).drop_first() == s@.skip(i + 1));
        i += 1;
    }
    slice_subrange(s, i, s.len())
}

/// Drops the trailing characters of class `k`.
pub fn trim_end<'a>(s: &'a [char], k: CharClass) -> (r: &'a [char])
    ensures
        r@ == trimmed_end(s@, k),
{
    let mut n: usize = s.len();
    assert(s@.take(n as int) == s@);
    while n > 0 && k.contains(s[n - 1])
        invariant
            n <= s.len(),
            trimmed_end(s@.take(n as int), k) == trimmed_end(s@, k),
        decreases n,
    {
        assert(s@.take(n as int).drop_last() == s@.take(n - 1));
        n -= 1;
    }
    slice_subrange(s, 0, n)
}

/// Drops the leading and trailing characters of class `k`.
pub fn trim<'a>(s: &'a [char], k: CharClass) -> (r: &'a [char])
    ensures
        r@ == trimmed(s@, k),
{
    trim_end(trim_start(s, k), k)
}

/// Whether `p` stands in `s` at index `i`.
pub fn stands_at(s: &[char], p: &[char], i: usize) -> (r: bool)
    ensures
        r == occurs_at(s@, p@, i as int),
{
    if i > s.len() || s.len() - i < p.len() {
        return false;
    }
    let mut j: usize = 0;
    while j < p.len()
        invariant
            j <= p.len(),
            i + p.len() <= s.len(),
            forall|k: int| 0 <= k < j ==> s[i + k] == p[k],
        decreases p.len() - j,
    {
        if s[i + j] != p[j] {
            assert(s@.subrange(i as int, i + p.len())[j as int] != p@[j as int]);
            return false;
        }
        j += 1;
    }
    assert(s@.subrange(i as int, i + p.len()) == p@);
    true
}

/// The rest of `s` behind the prefix `p`, where `s` starts with it.
pub fn strip_prefix<'a>(s: &'a [char], p: &[char]) -> (r: Option<&'a [char]>)
    ensures
        r is Some <==> p@.is_prefix_of(s@),
        r matches Some(rest) ==> rest@ == s@.skip(p@.len() as int),
{
    if stands_at(s, p, 0) {
        Some(slice_subrange(s, p.len(), s.len()))
    } else {
        None
    }
}

/// Finds the first index at which `p` stands in `s`.
pub fn find(s: &[char], p: &[char]) -> (r: Option<usize>)
    ensures
        match r {
            Some(i) => first_occurrence(s@, p@) == Some(i as int),
            None => first_occurrence(s@, p@) is None,
        },
{
    let mut i: usize = 0;
    while i < s.len()
        invariant
            i <= s.len(),
            forall|j: int| 0 <= j < i ==> !occurs_at(s@, p@, j),
        decreases s.len() - i,
    {
        if stands_at(s, p, i) {
            proof {
                first_occurrence_is_first(s@, p@, i as int);
            }
            return Some(i);
        }
        i += 1;
    }
    if stands_at(s, p, i) {
        proof {
            first_occurrence_is_first(s@, p@, i as int);
        }
        return Some(i);
    }
    None
}

/// The last of the pieces of `s` between the occurrences of `c`.
pub fn last_piece<'a>(s: &'a [char], c: char) -> (r: &'a [char])
    ensures
        r@ == split_on(s@, c).last(),
{
    let mut start: usize = 0;
    let mut i: usize = 0;
    assert(s@.subrange(0, 0) == Seq::<char>::empty());
    while i < s.len()
        invariant
            start <= i <= s.len(),
            split_on(s@.take(i as int), c).len() > 0,
            split_on(s@.take(i as int), c).last() == s@.subrange(start as int, i as int),
        decreases s.len() - i,
    {
        assert(s@.take(i + 1).drop_last() == s@.take(i as int));
        if s[i] == c {
            start = i + 1;
        }
        i += 1;
        assert(split_on(s@.take(i as int), c).last() == s@.subrange(start as int, i as int));
    }
    assert(s@.take(i as int) == s@);
    slice_subrange(s, start, i)
}

/// Drops `suffix` from the end of `s`, however often it stands there.
pub fn strip_suffix<'a>(s: &'a [char], suffix: &[char]) -> (r: &'a [char])
    ensures
        r@ == without_suffix(s@, suffix@),
{
    let mut n: usize = s.len();
    assert(s@.take(n as int) == s@);
    while suffix.len() > 0 && suffix.len() <= n && stands_at(
        slice_subrange(s, 0, n),
        suffix,
        n - suffix.len(),
    )
        invariant
            n <= s.len(),
            without_suffix(s@.take(n as int), suffix@) == without_suffix(s@, suffix@),
        decreases n,
    {
        let ghost head = s@.take(n as int);
        assert(head.subrange(n - suffix.len(), n as int) == suffix@);
        assert(head.take(n - suffix.len()) == s@.take(n - suffix.len()));
        n -= suffix.len();
    }
    slice_subrange(s, 0, n)
}

/// Whether `a` and `b` are equal up to the case of ASCII letters.
pub fn eq_ignore_ascii_case(a: &[char], b: &[char]) -> (r: bool)
    ensures
        r == same_ignoring_ascii_case(a@, b@),
{
    if a.len() != b.len() {
        return false;
    }
    let mut i: usize = 0;
    while i < a.len()
        invariant
            i <= a.len(),
            a.len() == b.len(),
            forall|j: int| 0 <= j < i ==> ascii_lower(a[j]) == ascii_lower(b[j]),
        decreases a.len() - i,
    {
        if to_ascii_lower(a[i]) != to_ascii_lower(b[i]) {
            return false;
        }
        i += 1;
    }
    true
}

fn to_ascii_lower(c: char) -> (r: char)
    ensures
        r == ascii_lower(c),
{
    if 'A' <= c && c <= 'Z' {
        ((c as u8) + 32) as char
    } else {
        c
    }
}

/// An index at which `p` first stands in `s` is the one `first_occurrence` gives.
pub proof fn first_occurrence_is_first(s: Seq<char>, p: Seq<char>, i: int)
    requires
        occurs_first_at(s, p, i),
    ensures
        first_occurrence(s, p) == Some(i),
{
    let k = choose|k: int| occurs_first_at(s, p, k);
    assert(occurs_first_at(s, p, k));
}

/// Whether `c` does not stand in `s`.
pub open spec fn is_without(s: Seq<char>, c: char) -> bool {
    forall|i: int| 0 <= i < s.len() ==> s[i] != c
}

/// Trimming brings no new character.
pub(crate) proof fn trimmed_is_without(s: Seq<char>, k: CharClass, c: char)
    requires
        is_without(s, c),
    ensures
        is_without(trimmed_start(s, k), c),
        is_without(trimmed_end(s, k), c),
        is_without(trimmed(s, k), c),
{
    trimmed_start_is_without(s, k, c);
    trimmed_end_is_without(s, k, c);
    trimmed_end_is_without(trimmed_start(s, k), k, c);
}

proof fn trimmed_start_is_without(s: Seq<char>, k: CharClass, c: char)
    requires
        is_without(s, c),
    ensures
        is_without(trimmed_start(s, k), c),
    decreases s.len(),
{
    if s.len() > 0 && k.has(s[0]) {
        trimmed_start_is_without(s.drop_first(), k, c);
    }
}

proof fn trimmed_end_is_without(s: Seq<char>, k: CharClass, c: char)
    requires
        is_without(s, c),
    ensures
        is_without(trimmed_end(s, k), c),
    decreases s.len(),
{
    if s.len() > 0 && k.has(s.last()) {
        trimmed_end_is_without(s.drop_last(), k, c);
    }
}

/// A text whose ends do not belong to a class is left as it is.
pub(crate) proof fn trimmed_keeps(s: Seq<char>, k: CharClass)
    requires
        s.len() > 0 ==> !k.has(s[0]) && !k.has(s.last()),
    ensures
        trimmed(s, k) == s,
{
}

/// The ends of a trimmed text do not belong to the class.
pub(crate) proof fn trimmed_ends(s: Seq<char>, k: CharClass)
    ensures
        trimmed(s, k).len() <= s.len(),
        trimmed(s, k).len() == s.len() ==> trimmed(s, k) == s,
        trimmed(s, k).len() > 0 ==> !k.has(trimmed(s, k)[0]) && !k.has(trimmed(s, k).last()),
{
    trimmed_start_ends(s, k);
    trimmed_end_ends(trimmed_start(s, k), k);
}

pub(crate) proof fn trimmed_start_ends(s: Seq<char>, k: CharClass)
    ensures
        trimmed_start(s, k).len() <= s.len(),
        trimmed_start(s, k).len() == s.len() ==> trimmed_start(s, k) == s,
        trimmed_start(s, k).len() > 0 ==> !k.has(trimmed_start(s, k)[0]),
    decreases s.len(),
{
    if s.len() > 0 && k.has(s[0]) {
        trimmed_start_ends(s.drop_first(), k);
    }
}

pub(crate) proof fn trimmed_end_ends(s: Seq<char>, k: CharClass)
    ensures
        trimmed_end(s, k).len() <= s.len(),
        trimmed_end(s, k).len() == s.len() ==> trimmed_end(s, k) == s,
        trimmed_end(s, k).len() > 0 ==> !k.has(trimmed_end(s, k).last()) && trimmed_end(s, k)[0]
            == s[0],
    decreases s.len(),
{
    if s.len() > 0 && k.has(s.last()) {
        trimmed_end_ends(s.drop_last(), k);
    }
}

/// Trimming the end of two texts one behind the other trims the second, where the first does not
/// end in the class.
pub(crate) proof fn trimmed_end_of_concat(a: Seq<char>, b: Seq<char>, k: CharClass)
    requires
        a.len() > 0,
        !k.has(a.last()),
    ensures
        trimmed_end(a + b, k) == a + trimmed_end(b, k),
    decreases b.len(),
{
    if b.len() == 0 {
        assert(a + b =~= a);
    } else if k.has(b.last()) {
        assert((a + b).drop_last() =~= a + b.drop_last());
        trimmed_end_of_concat(a, b.drop_last(), k);
    }
}

/// A text that does not hold the separator is its only piece.
pub proof fn split_of_one_piece(s: Seq<char>, c: char)
    requires
        is_without(s, c),
    ensures
        split_on(s, c) == seq![s],
    decreases s.len(),
{
    if s.len() > 0 {
        split_of_one_piece(s.drop_last(), c);
        assert(s.drop_last().push(s.last()) == s);
        assert(split_on(s, c) =~= seq![s]);
    } else {
        assert(s == Seq::<char>::empty());
        assert(split_on(s, c) =~= seq![s]);
    }
}

/// What stands behind the last separator is the last piece.
pub proof fn split_behind_separator(x: Seq<char>, y: Seq<char>, c: char)
    requires
        is_without(y, c),
    ensures
        split_on(x.push(c) + y, c) == split_on(x, c).push(y),
    decreases y.len(),
{
    let s = x.push(c) + y;
    if y.len() == 0 {
        assert(s == x.push(c));
        assert(s.drop_last() == x);
        assert(y == Seq::<char>::empty());
    } else {
        assert(s.drop_last() == x.push(c) + y.drop_last());
        split_behind_separator(x, y.drop_last(), c);
        assert(y.drop_last().push(y.last()) == y);
        assert(split_on(s, c) =~= split_on(x, c).push(y));
    }
}

/// No piece holds the separator, and there is at least one.
pub(crate) proof fn pieces_are_without(s: Seq<char>, c: char)
    ensures
        split_on(s, c).len() > 0,
        forall|i: int| 0 <= i < split_on(s, c).len() ==> is_without(#[trigger] split_on(s, c)[i], c),
    decreases s.len(),
{
    if s.len() > 0 {
        let before = split_on(s.drop_last(), c);
        pieces_are_without(s.drop_last(), c);
        assert(is_without(before[before.len() - 1], c));
    }
}

/// A text without a suffix does not end in it, and holds no new character.
pub(crate) proof fn without_suffix_ends(s: Seq<char>, suffix: Seq<char>, c: char)
    requires
        suffix.len() > 0,
    ensures
        !suffix.is_suffix_of(without_suffix(s, suffix)),
        is_without(s, c) ==> is_without(without_suffix(s, suffix), c),
    decreases s.len(),
{
    if suffix.is_suffix_of(s) {
        without_suffix_ends(s.take(s.len() - suffix.len()), suffix, c);
    }
}

/// Whether all characters of `s` belong to the class `k`.
pub open spec fn is_all(s: Seq<char>, k: CharClass) -> bool {
    forall|i: int| 0 <= i < s.len() ==> k.has(#[trigger] s[i])
}

/// Carriage return and line feed are the line breaks, and a class of one character holds that one.
pub proof fn classes_hold_their_characters(c: char, d: char)
    ensures
        CharClass::LineBreak.has(c) <==> c == '\r' || c == '\n',
        CharClass::Only(d).has(c) <==> c == d,
        CharClass::Whitespace.has(c) && c != ' ' ==> !('!' <= c <= '~'),
        c == ' ' || c == '\t' || c == '\r' || c == '\n' ==> CharClass::Whitespace.has(c),
{
}

/// Trimming the start takes off the leading characters of the class, all of them and nothing else.
pub proof fn trimmed_start_is_the_rest(a: Seq<char>, t: Seq<char>, k: CharClass)
    requires
        is_all(a, k),
        t.len() > 0 ==> !k.has(t[0]),
    ensures
        trimmed_start(a + t, k) == t,
    decreases a.len(),
{
    let s = a + t;
    if a.len() == 0 {
        assert(s =~= t);
    } else {
        assert(s[0] == a[0]);
        assert(s.drop_first() =~= a.drop_first() + t);
        assert forall|i: int| 0 <= i < a.drop_first().len() implies k.has(
            #[trigger] a.drop_first()[i],
        ) by {
            assert(a.drop_first()[i] == a[i + 1]);
        }
        trimmed_start_is_the_rest(a.drop_first(), t, k);
    }
}

/// Trimming the end takes off the trailing characters of the class, all of them and nothing else.
pub proof fn trimmed_end_is_the_rest(t: Seq<char>, b: Seq<char>, k: CharClass)
    requires
        is_all(b, k),
        t.len() > 0 ==> !k.has(t.last()),
    ensures
        trimmed_end(t + b, k) == t,
    decreases b.len(),
{
    let s = t + b;
    if b.len() == 0 {
        assert(s =~= t);
    } else {
        assert(s.last() == b[b.len() - 1]);
        assert(s.drop_last() =~= t + b.drop_last());
        assert forall|i: int| 0 <= i < b.drop_last().len() implies k.has(
            #[trigger] b.drop_last()[i],
        ) by {
            assert(b.drop_last()[i] == b[i]);
        }
        trimmed_end_is_the_rest(t, b.drop_last(), k);
    }
}

/// Trimming takes off the characters of the class around a text, all of them and nothing else.
pub proof fn trimmed_is_the_core(a: Seq<char>, t: Seq<char>, b: Seq<char>, k: CharClass)
    requires
        is_all(a, k),
        is_all(b, k),
        t.len() > 0 ==> !k.has(t[0]) && !k.has(t.last()),
    ensures
        trimmed(a + t + b, k) == t,
{
    if t.len() == 0 {
        let s = a + t + b;
        assert forall|i: int| 0 <= i < s.len() implies k.has(#[trigger] s[i]) by {
            if i < a.len() {
                assert(s[i] == a[i]);
            } else {
                assert(s[i] == b[i - a.len()]);
            }
        }
        assert(s + t =~= s);
        trimmed_start_is_the_rest(s, t, k);
        assert(trimmed_end(t, k) == t);
    } else {
        assert(a + t + b =~= a + (t + b));
        assert((t + b)[0] == t[0]);
        trimmed_start_is_the_rest(a, t + b, k);
        trimmed_end_is_the_rest(t, b, k);
    }
}

/// The first index at which a text stands in another is one at which it stands and before which it
/// does not; there is none where it stands nowhere.
pub proof fn first_occurrence_tells_where(s: Seq<char>, p: Seq<char>)
    ensures
        match first_occurrence(s, p) {
            Some(i) => {
                &&& 0 <= i <= s.len() - p.len()
                &&& s.subrange(i, i + p.len()) == p
                &&& forall|j: int| 0 <= j < i ==> #[trigger] s.subrange(j, j + p.len()) != p
            },
            None => forall|j: int|
                0 <= j <= s.len() - p.len() ==> #[trigger] s.subrange(j, j + p.len()) != p,
        },
{
    match first_occurrence(s, p) {
        Some(i) => {
            assert(occurs_first_at(s, p, i));
            assert forall|j: int| 0 <= j < i implies #[trigger] s.subrange(j, j + p.len())
                != p by {
                assert(!occurs_at(s, p, j));
            }
        },
        None => {
            assert forall|j: int| 0 <= j <= s.len() - p.len() implies #[trigger] s.subrange(
                j,
                j + p.len(),
            ) != p by {
                if occurs_at(s, p, j) {
                    some_occurrence_is_first(s, p, j);
                }
            }
        },
    }
}

proof fn some_occurrence_is_first(s: Seq<char>, p: Seq<char>, j: int)
    requires
        occurs_at(s, p, j),
    ensures
        exists|i: int| occurs_first_at(s, p, i),
    decreases j,
{
    if exists|k: int| 0 <= k < j && occurs_at(s, p, k) {
        let k = choose|k: int| 0 <= k < j && occurs_at(s, p, k);
        some_occurrence_is_first(s, p, k);
    } else {
        assert(occurs_first_at(s, p, j));
    }
}

/// One more suffix at the end of a text does not count, and a text that does not end in the suffix
/// is left as it is.
pub proof fn suffixes_do_not_count(s: Seq<char>, suffix: Seq<char>)
    requires
        suffix.len() > 0,
    ensures
        without_suffix(s + suffix, suffix) == without_suffix(s, suffix),
        !suffix.is_suffix_of(s) ==> without_suffix(s, suffix) == s,
{
    let t = s + suffix;
    assert(t.subrange(t.len() - suffix.len(), t.len() as int) =~= suffix);
    assert(t.take(t.len() - suffix.len()) =~= s);
}

/// Two texts are the same up to the case of ASCII letters where they are as long and differ at most
/// in letters, one the upper-case and the other the lower-case form.
pub proof fn only_ascii_case_may_differ(a: Seq<char>, b: Seq<char>)
    ensures
        same_ignoring_ascii_case(a, b) <==> a.len() == b.len() && forall|i: int|
            0 <= i < a.len() ==> {
                ||| #[trigger] a[i] == b[i]
                ||| 'A' <= a[i] <= 'Z' && b[i] as u32 == a[i] as u32 + 32
                ||| 'A' <= b[i] <= 'Z' && a[i] as u32 == b[i] as u32 + 32
            },
{
    if a.len() == b.len() {
        assert forall|i: int| 0 <= i < a.len() implies (ascii_lower(a[i]) == ascii_lower(b[i]) <==> {
            ||| #[trigger] a[i] == b[i]
            ||| 'A' <= a[i] <= 'Z' && b[i] as u32 == a[i] as u32 + 32
            ||| 'A' <= b[i] <= 'Z' && a[i] as u32 == b[i] as u32 + 32
        }) by {
            lower_forms(a[i], b[i]);
        }
        if same_ignoring_ascii_case(a, b) {
            assert forall|i: int| 0 <= i < a.len() implies {
                ||| #[trigger] a[i] == b[i]
                ||| 'A' <= a[i] <= 'Z' && b[i] as u32 == a[i] as u32 + 32
                ||| 'A' <= b[i] <= 'Z' && a[i] as u32 == b[i] as u32 + 32
            } by {
                assert(ascii_lower(a[i]) == ascii_lower(b[i]));
            }
        }
    }
}

proof fn lower_forms(c: char, d: char)
    ensures
        ascii_lower(c) == ascii_lower(d) <==> {
            ||| c == d
            ||| 'A' <= c <= 'Z' && d as u32 == c as u32 + 32
            ||| 'A' <= d <= 'Z' && c as u32 == d as u32 + 32
        },
{
    if 'A' <= c <= 'Z' {
        assert(ascii_lower(c) as u32 == c as u32 + 32);
    }
    if 'A' <= d <= 'Z' {
        assert(ascii_lower(d) as u32 == d as u32 + 32);
    }
}

} // verus!

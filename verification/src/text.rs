//! Character and string helpers shared by the parsers.
//!
//! Text is modelled as `Seq<char>`: every length and every position in the
//! contracts of this crate counts characters.

use vstd::prelude::*;
use vstd::string::*;

verus! {

/// ASCII letters and digits.
pub open spec fn is_alphanumeric(c: char) -> bool {
    ('a' <= c && c <= 'z') || ('A' <= c && c <= 'Z') || ('0' <= c && c <= '9')
}

/// ASCII decimal digits.
pub open spec fn is_digit(c: char) -> bool {
    '0' <= c && c <= '9'
}

/// The views of a sequence of strings.
pub open spec fn texts(v: Seq<String>) -> Seq<Seq<char>> {
    Seq::new(v.len(), |i: int| v[i]@)
}

/// The position of the first `c` in `s` at or after `from`, or `s.len()`
/// when there is none.
pub open spec fn first_from(s: Seq<char>, c: char, from: int) -> int
    decreases s.len() - from,
{
    if from >= s.len() {
        s.len() as int
    } else if s[from] == c {
        from
    } else {
        first_from(s, c, from + 1)
    }
}

/// The fields of `s` from position `start` on, `sep` being the separator.
pub open spec fn split_from(s: Seq<char>, sep: char, start: int) -> Seq<Seq<char>>
    decreases s.len() - start,
{
    let end = first_from(s, sep, start);
    if start <= end < s.len() {
        seq![s.subrange(start, end)] + split_from(s, sep, end + 1)
    } else {
        seq![s.subrange(start, s.len() as int)]
    }
}

/// The fields of `s` between occurrences of `sep`. A text without `sep` is
/// one field; the empty text is one empty field.
pub open spec fn split(s: Seq<char>, sep: char) -> Seq<Seq<char>> {
    split_from(s, sep, 0)
}

/// The fields joined again, with `sep` between neighbours.
pub open spec fn join(parts: Seq<Seq<char>>, sep: char) -> Seq<char>
    decreases parts.len(),
{
    if parts.len() == 0 {
        Seq::empty()
    } else if parts.len() == 1 {
        parts[0]
    } else {
        parts[0] + seq![sep] + join(parts.skip(1), sep)
    }
}

/// No character of `s` is `c`.
pub open spec fn free_of(s: Seq<char>, c: char) -> bool {
    forall|j: int| 0 <= j < s.len() ==> s[j] != c
}

/// `a` and `b` hold the same characters before position `k`.
pub open spec fn agree(a: Seq<char>, b: Seq<char>, k: int) -> bool {
    0 <= k <= a.len() && k <= b.len() && forall|j: int| 0 <= j < k ==> a[j] == b[j]
}

/// `a` comes before `b` in the order of texts: the two agree up to a
/// position where `a` ends and `b` goes on, or where `a` has the lesser
/// character. This is the order of `String`.
pub open spec fn precedes(a: Seq<char>, b: Seq<char>) -> bool {
    exists|k: int| #[trigger] agree(a, b, k) && k < b.len() && (k == a.len() || a[k] < b[k])
}

/// How one text stands to another in the order of texts.
#[derive(Clone, Copy, Debug, PartialEq, Eq)]
pub enum Order {
    Before,
    Same,
    After,
}

/// No text comes before itself, so that texts in order are distinct.
pub proof fn lemma_precedes_irreflexive(a: Seq<char>, b: Seq<char>)
    requires
        precedes(a, b),
    ensures
        a != b,
{
}

/// The order of texts is transitive.
pub proof fn lemma_precedes_transitive(a: Seq<char>, b: Seq<char>, c: Seq<char>)
    requires
        precedes(a, b),
        precedes(b, c),
    ensures
        precedes(a, c),
{
    let k1 = choose|k: int|
        #[trigger] agree(a, b, k) && k < b.len() && (k == a.len() || a[k] < b[k]);
    let k2 = choose|k: int|
        #[trigger] agree(b, c, k) && k < c.len() && (k == b.len() || b[k] < c[k]);
    let k = if k1 <= k2 {
        k1
    } else {
        k2
    };
    assert(agree(a, c, k));
}

/// `first_from` is the least position at or after `from` that holds `c`.
pub proof fn lemma_first_from(s: Seq<char>, c: char, from: int)
    requires
        0 <= from <= s.len(),
    ensures
        from <= first_from(s, c, from) <= s.len(),
        first_from(s, c, from) < s.len() ==> s[first_from(s, c, from)] == c,
        forall|j: int| from <= j < first_from(s, c, from) ==> s[j] != c,
    decreases s.len() - from,
{
    if from < s.len() && s[from] != c {
        lemma_first_from(s, c, from + 1);
    }
}

/// A position that holds `c`, with no `c` between `from` and it, is `first_from`.
pub proof fn lemma_first_from_is(s: Seq<char>, c: char, from: int, k: int)
    requires
        0 <= from <= k <= s.len(),
        forall|j: int| from <= j < k ==> s[j] != c,
        k < s.len() ==> s[k] == c,
    ensures
        first_from(s, c, from) == k,
{
    lemma_first_from(s, c, from);
}

/// Splitting gives at least one field.
pub proof fn lemma_split_len(s: Seq<char>, sep: char)
    ensures
        split(s, sep).len() >= 1,
{
}

/// Searching from `b` on in `s` is searching in what follows position `a`.
proof fn lemma_first_from_skip(s: Seq<char>, c: char, a: int, b: int)
    requires
        0 <= a <= b <= s.len(),
    ensures
        first_from(s, c, b) == a + first_from(s.skip(a), c, b - a),
    decreases s.len() - b,
{
    if b < s.len() && s[b] != c {
        lemma_first_from_skip(s, c, a, b + 1);
    }
}

/// Splitting from `b` on in `s` is splitting what follows position `a`.
proof fn lemma_split_from_skip(s: Seq<char>, sep: char, a: int, b: int)
    requires
        0 <= a <= b <= s.len(),
    ensures
        split_from(s, sep, b) == split_from(s.skip(a), sep, b - a),
    decreases s.len() - b,
{
    let end = first_from(s, sep, b);
    lemma_first_from(s, sep, b);
    lemma_first_from_skip(s, sep, a, b);
    let t = s.skip(a);
    if end < s.len() {
        lemma_split_from_skip(s, sep, a, end + 1);
        assert(s.subrange(b, end) == t.subrange(b - a, end - a));
    } else {
        assert(s.subrange(b, s.len() as int) == t.subrange(b - a, t.len() as int));
    }
}

/// The fields from `start` on hold no separator, and joined they are `s`
/// from `start` on.
proof fn lemma_split_from_join(s: Seq<char>, sep: char, start: int)
    requires
        0 <= start <= s.len(),
    ensures
        split_from(s, sep, start).len() >= 1,
        forall|i: int|
            0 <= i < split_from(s, sep, start).len() ==> free_of(
                #[trigger] split_from(s, sep, start)[i],
                sep,
            ),
        join(split_from(s, sep, start), sep) == s.subrange(start, s.len() as int),
    decreases s.len() - start,
{
    let end = first_from(s, sep, start);
    lemma_first_from(s, sep, start);
    let fields = split_from(s, sep, start);
    if end < s.len() {
        let rest = split_from(s, sep, end + 1);
        lemma_split_from_join(s, sep, end + 1);
        assert(fields.skip(1) == rest);
        assert(fields[0] == s.subrange(start, end));
        assert(s.subrange(start, end) + seq![sep] + s.subrange(end + 1, s.len() as int)
            == s.subrange(start, s.len() as int));
        assert forall|i: int| 0 <= i < fields.len() implies free_of(#[trigger] fields[i], sep) by {
            if i > 0 {
                assert(fields[i] == rest[i - 1]);
            }
        }
    }
}

/// Split and joined again, a text is what it was, and no field holds the
/// separator.
pub proof fn lemma_split_join(s: Seq<char>, sep: char)
    ensures
        join(split(s, sep), sep) == s,
        forall|i: int| 0 <= i < split(s, sep).len() ==> free_of(#[trigger] split(s, sep)[i], sep),
{
    lemma_split_from_join(s, sep, 0);
    assert(s.subrange(0, s.len() as int) == s);
}

/// Fields without the separator, joined and split again, are what they were.
pub proof fn lemma_join_split(parts: Seq<Seq<char>>, sep: char)
    requires
        parts.len() >= 1,
        forall|i: int| 0 <= i < parts.len() ==> free_of(#[trigger] parts[i], sep),
    ensures
        split(join(parts, sep), sep) == parts,
    decreases parts.len(),
{
    let s = join(parts, sep);
    let k = parts[0].len() as int;
    assert(free_of(parts[0], sep));
    if parts.len() == 1 {
        lemma_first_from_is(s, sep, 0, k);
        assert(s.subrange(0, k) == parts[0]);
        assert(split(s, sep) == parts);
    } else {
        let rest = parts.skip(1);
        assert forall|i: int| 0 <= i < rest.len() implies free_of(#[trigger] rest[i], sep) by {
            assert(rest[i] == parts[i + 1]);
        }
        lemma_join_split(rest, sep);
        lemma_first_from_is(s, sep, 0, k);
        lemma_split_from_skip(s, sep, k + 1, k + 1);
        assert(s.skip(k + 1) == join(rest, sep));
        assert(s.subrange(0, k) == parts[0]);
        assert(split(s, sep) == seq![parts[0]] + rest);
        assert(seq![parts[0]] + rest == parts);
    }
}

/// ASCII letters and digits.
pub fn alphanumeric(c: char) -> (r: bool)
    ensures
        r == is_alphanumeric(c),
{
    ('a' <= c && c <= 'z') || ('A' <= c && c <= 'Z') || ('0' <= c && c <= '9')
}

/// The characters of `s`, in order.
pub fn chars_of(s: &str) -> (v: Vec<char>)
    ensures
        v@ == s@,
{
    let mut v: Vec<char> = Vec::new();
    for c in it: s.chars()
        invariant
            it.seq() == s@,
            v@ == s@.take(it.index() as int),
    {
        v.push(c);
    }
    v
}

/// `String::push`: the text grows at its end by the one character `c`, and
/// nothing else in it changes.
#[verifier::external_body]
pub(crate) fn push_char(s: &mut String, c: char)
    ensures
        final(s)@ == old(s)@.push(c),
{
    s.push(c);
}

/// What is said of a character that may not stand where it stands.
pub open spec fn invalid_character(c: char) -> Seq<char> {
    "invalid character '"@ + seq![c] + "'"@
}

/// Says that `c` may not stand where it stands.
pub fn describe_invalid_character(c: char) -> (r: String)
    ensures
        r@ == invalid_character(c),
{
    let mut r = "invalid character '".to_owned();
    push_char(&mut r, c);
    r.append("'");
    r
}

/// The characters of `v` from `from` up to `to`, as a string.
pub(crate) fn string_of(v: &Vec<char>, from: usize, to: usize) -> (s: String)
    requires
        from <= to <= v.len(),
    ensures
        s@ == v@.subrange(from as int, to as int),
{
    let mut s = String::new();
    let mut i: usize = from;
    while i < to
        invariant
            from <= i <= to <= v.len(),
            s@ == v@.subrange(from as int, i as int),
        decreases to - i,
    {
        push_char(&mut s, v[i]);
        i += 1;
    }
    s
}

/// The position of the first `c` in `v` at or after `from`, or `v.len()`.
pub(crate) fn find_char(v: &Vec<char>, c: char, from: usize) -> (k: usize)
    requires
        from <= v.len(),
    ensures
        k == first_from(v@, c, from as int),
        from <= k <= v.len(),
{
    let mut k: usize = from;
    while k < v.len() && v[k] != c
        invariant
            from <= k <= v.len(),
            forall|j: int| from <= j < k ==> v@[j] != c,
        decreases v.len() - k,
    {
        k += 1;
    }
    proof {
        lemma_first_from_is(v@, c, from as int, k as int);
    }
    k
}

/// Splits `s` at every `sep`, as `str::split` does for a character.
pub fn split_str(s: &str, sep: char) -> (parts: Vec<String>)
    ensures
        texts(parts@) == split(s@, sep),
{
    let v = chars_of(s);
    let mut parts: Vec<String> = Vec::new();
    let mut start: usize = 0;
    loop
        invariant_except_break
            start <= v.len(),
            split(s@, sep) == texts(parts@) + split_from(s@, sep, start as int),
        invariant
            v@ == s@,
        ensures
            texts(parts@) == split(s@, sep),
        decreases v.len() - start,
    {
        let end = find_char(&v, sep, start);
        let field = string_of(&v, start, end);
        let ghost before = parts@;
        parts.push(field);
        assert(texts(parts@) == texts(before) + seq![v@.subrange(start as int, end as int)]);
        if end >= v.len() {
            break ;
        }
        start = end + 1;
    }
    parts
}

/// How `a` stands to `b` in the order of texts.
pub fn order_of(a: &str, b: &str) -> (r: Order)
    ensures
        match r {
            Order::Before => precedes(a@, b@),
            Order::Same => a@ == b@,
            Order::After => precedes(b@, a@),
        },
{
    let x = chars_of(a);
    let y = chars_of(b);
    let mut k: usize = 0;
    while k < x.len() && k < y.len() && x[k] == y[k]
        invariant
            agree(x@, y@, k as int),
        decreases x.len() - k,
    {
        k += 1;
    }
    if k == x.len() && k == y.len() {
        assert(x@ =~= y@);
        Order::Same
    } else if k == x.len() {
        assert(agree(x@, y@, k as int) && k < y@.len());
        Order::Before
    } else if k == y.len() {
        assert(agree(y@, x@, k as int) && k < x@.len());
        Order::After
    } else if x[k] < y[k] {
        assert(agree(x@, y@, k as int) && k < y@.len());
        Order::Before
    } else {
        assert(agree(y@, x@, k as int) && k < x@.len());
        Order::After
    }
}

} // verus!

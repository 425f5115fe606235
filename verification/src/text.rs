//! Character-level text helpers: the playlist formats are line-oriented
//! UTF-8 text, modelled throughout as sequences of `char`.
use vstd::prelude::*;

verus! {

/// The whitespace characters stripped from the ends of a playlist line.
pub open spec fn is_space_char(c: char) -> bool {
    c == ' ' || c == '\t' || c == '\r' || c == '\n' || c == '\u{b}' || c == '\u{c}'
}

pub fn is_space(c: char) -> (r: bool)
    ensures
        r == is_space_char(c),
{
    c == ' ' || c == '\t' || c == '\r' || c == '\n' || c == '\u{b}' || c == '\u{c}'
}

/// The Unicode code point of `c`, with ASCII upper-case letters folded
/// to their lower-case counterparts.
pub open spec fn lower_code(c: char) -> int {
    if 'A' <= c && c <= 'Z' {
        c as u32 + 32
    } else {
        c as u32 as int
    }
}

/// ASCII-case-insensitive character equality.
pub open spec fn char_ieq(a: char, b: char) -> bool {
    lower_code(a) == lower_code(b)
}

pub fn chars_ieq(a: char, b: char) -> (r: bool)
    ensures
        r == char_ieq(a, b),
{
    let la: u32 = if 'A' <= a && a <= 'Z' {
        a as u32 + 32
    } else {
        a as u32
    };
    let lb: u32 = if 'A' <= b && b <= 'Z' {
        b as u32 + 32
    } else {
        b as u32
    };
    la == lb
}

/// Copy the characters of a string slice into a vector.
pub fn to_chars(s: &str) -> (r: Vec<char>)
    ensures
        r@ == s@,
{
    let n = s.unicode_len();
    let mut r: Vec<char> = Vec::new();
    let mut i: usize = 0;
    while i < n
        invariant
            i <= n,
            r@ == s@.take(i as int),
        decreases n - i,
    {
        r.push(s.get_char(i));
        proof {
            assert(s@.take(i + 1) =~= s@.take(i as int).push(s@[i as int]));
        }
        i = i + 1;
    }
    proof {
        assert(s@.take(n as int) =~= s@);
    }
    r
}

/// Relies on std's `String::push`: appends the given character to the
/// end of the string.
#[verifier::external_body]
fn push_char(s: &mut String, c: char)
    ensures
        final(s)@ == old(s)@.push(c),
{
    s.push(c);
}

/// Build a string out of a vector of characters.
pub fn from_chars(v: &Vec<char>) -> (r: String)
    ensures
        r@ == v@,
{
    let mut r = String::new();
    let mut i: usize = 0;
    while i < v.len()
        invariant
            i <= v.len(),
            r@ == v@.take(i as int),
        decreases v.len() - i,
    {
        push_char(&mut r, v[i]);
        proof {
            assert(v@.take(i + 1) =~= v@.take(i as int).push(v@[i as int]));
        }
        i = i + 1;
    }
    proof {
        assert(v@.take(v@.len() as int) =~= v@);
    }
    r
}

/// `p` is a prefix of `s`.
pub open spec fn has_prefix(s: Seq<char>, p: Seq<char>) -> bool {
    p.len() <= s.len() && (forall|i: int| 0 <= i < p.len() ==> s[i] == p[i])
}

pub fn starts_with_lit(v: &Vec<char>, p: &str) -> (r: bool)
    ensures
        r == has_prefix(v@, p@),
{
    let pn = p.unicode_len();
    if pn > v.len() {
        return false;
    }
    let mut i: usize = 0;
    while i < pn
        invariant
            i <= pn,
            pn <= v.len(),
            pn == p@.len(),
            forall|j: int| 0 <= j < i ==> v@[j] == p@[j],
        decreases pn - i,
    {
        if v[i] != p.get_char(i) {
            return false;
        }
        i = i + 1;
    }
    true
}

/// ASCII-case-insensitive equality of two character sequences.
pub open spec fn seq_ieq(s: Seq<char>, p: Seq<char>) -> bool {
    s.len() == p.len() && (forall|i: int| 0 <= i < p.len() ==> char_ieq(s[i], p[i]))
}

pub fn chars_ieq_lit(v: &Vec<char>, p: &str) -> (r: bool)
    ensures
        r == seq_ieq(v@, p@),
{
    let pn = p.unicode_len();
    if pn != v.len() {
        return false;
    }
    let mut i: usize = 0;
    while i < pn
        invariant
            i <= pn,
            pn == v@.len(),
            pn == p@.len(),
            forall|j: int| 0 <= j < i ==> char_ieq(v@[j], p@[j]),
        decreases pn - i,
    {
        if !chars_ieq(v[i], p.get_char(i)) {
            return false;
        }
        i = i + 1;
    }
    true
}

/// ASCII-case-insensitive prefix test.
pub open spec fn has_prefix_ieq(s: Seq<char>, p: Seq<char>) -> bool {
    p.len() <= s.len() && (forall|i: int| 0 <= i < p.len() ==> char_ieq(s[i], p[i]))
}

pub fn starts_with_ieq_lit(v: &Vec<char>, p: &str) -> (r: bool)
    ensures
        r == has_prefix_ieq(v@, p@),
{
    let pn = p.unicode_len();
    if pn > v.len() {
        return false;
    }
    let mut i: usize = 0;
    while i < pn
        invariant
            i <= pn,
            pn <= v.len(),
            pn == p@.len(),
            forall|j: int| 0 <= j < i ==> char_ieq(v@[j], p@[j]),
        decreases pn - i,
    {
        if !chars_ieq(v[i], p.get_char(i)) {
            return false;
        }
        i = i + 1;
    }
    true
}

pub fn chars_eq(a: &Vec<char>, b: &Vec<char>) -> (r: bool)
    ensures
        r == (a@ == b@),
{
    if a.len() != b.len() {
        return false;
    }
    let mut i: usize = 0;
    while i < a.len()
        invariant
            i <= a.len(),
            a@.len() == b@.len(),
            forall|j: int| 0 <= j < i ==> a@[j] == b@[j],
        decreases a.len() - i,
    {
        if a[i] != b[i] {
            return false;
        }
        i = i + 1;
    }
    proof {
        assert(a@ =~= b@);
    }
    true
}

pub fn str_eq_chars(s: &str, v: &Vec<char>) -> (r: bool)
    ensures
        r == (s@ == v@),
{
    let n = s.unicode_len();
    if n != v.len() {
        return false;
    }
    let mut i: usize = 0;
    while i < n
        invariant
            i <= n,
            n == s@.len(),
            n == v@.len(),
            forall|j: int| 0 <= j < i ==> s@[j] == v@[j],
        decreases n - i,
    {
        if s.get_char(i) != v[i] {
            return false;
        }
        i = i + 1;
    }
    proof {
        assert(s@ =~= v@);
    }
    true
}

pub fn string_eq_lit(s: &str, p: &str) -> (r: bool)
    ensures
        r == (s@ == p@),
{
    let n = s.unicode_len();
    if n != p.unicode_len() {
        return false;
    }
    let mut i: usize = 0;
    while i < n
        invariant
            i <= n,
            n == s@.len(),
            n == p@.len(),
            forall|j: int| 0 <= j < i ==> s@[j] == p@[j],
        decreases n - i,
    {
        if s.get_char(i) != p.get_char(i) {
            return false;
        }
        i = i + 1;
    }
    proof {
        assert(s@ =~= p@);
    }
    true
}

/// The sequence with leading whitespace removed.
pub open spec fn trim_start_spec(s: Seq<char>) -> Seq<char>
    decreases s.len(),
{
    if s.len() > 0 && is_space_char(s[0]) {
        trim_start_spec(s.drop_first())
    } else {
        s
    }
}

/// The sequence with trailing whitespace removed.
pub open spec fn trim_end_spec(s: Seq<char>) -> Seq<char>
    decreases s.len(),
{
    if s.len() > 0 && is_space_char(s.last()) {
        trim_end_spec(s.drop_last())
    } else {
        s
    }
}

/// The sequence with whitespace removed from both ends.
pub open spec fn trim_spec(s: Seq<char>) -> Seq<char> {
    trim_end_spec(trim_start_spec(s))
}

/// Trimming only ever shortens a sequence from its end.
pub proof fn lemma_trim_end_prefix(s: Seq<char>)
    ensures
        trim_end_spec(s).len() <= s.len(),
        trim_end_spec(s) == s.take(trim_end_spec(s).len() as int),
    decreases s.len(),
{
    if s.len() > 0 && is_space_char(s.last()) {
        lemma_trim_end_prefix(s.drop_last());
        assert(s.drop_last() =~= s.take(s.len() - 1));
        assert(s.drop_last().take(trim_end_spec(s).len() as int) =~= s.take(
            trim_end_spec(s).len() as int,
        ));
    } else {
        assert(s =~= s.take(s.len() as int));
    }
}

/// A non-space character is never removed by end trimming.
pub proof fn lemma_trim_end_keeps(s: Seq<char>, m: int)
    requires
        0 <= m < s.len(),
        !is_space_char(s[m]),
    ensures
        trim_end_spec(s).len() > m,
    decreases s.len(),
{
    if s.len() > 0 && is_space_char(s.last()) {
        lemma_trim_end_keeps(s.drop_last(), m);
    }
}

/// Trimming a sequence whose first character is not whitespace leaves
/// its start alone.
pub proof fn lemma_trim_start_noop(s: Seq<char>)
    requires
        s.len() == 0 || !is_space_char(s[0]),
    ensures
        trim_start_spec(s) == s,
{
}

pub fn trim(v: &Vec<char>) -> (r: Vec<char>)
    ensures
        r@ == trim_spec(v@),
{
    let mut a: usize = 0;
    let mut b: usize = v.len();
    proof {
        assert(v@.skip(0) =~= v@);
    }
    while a < b && is_space(v[a])
        invariant
            a <= b,
            b == v@.len(),
            trim_start_spec(v@) == trim_start_spec(v@.skip(a as int)),
        decreases b - a,
    {
        proof {
            assert(v@.skip(a as int).drop_first() =~= v@.skip(a + 1));
        }
        a = a + 1;
    }
    proof {
        assert(trim_start_spec(v@) == v@.skip(a as int)) by {
            if a < b {
                assert(v@.skip(a as int)[0] == v@[a as int]);
            } else {
                assert(v@.skip(a as int).len() == 0);
            }
        }
    }
    let ghost u: Seq<char> = v@.skip(a as int);
    proof {
        assert(u.take(b - a) =~= u);
    }
    while b > a && is_space(v[b - 1])
        invariant
            a <= b,
            b <= v@.len(),
            u == v@.skip(a as int),
            trim_end_spec(u) == trim_end_spec(u.take(b - a)),
        decreases b,
    {
        proof {
            let w = u.take(b - a);
            assert(w.last() == v@[b - 1]);
            assert(w.drop_last() =~= u.take(b - 1 - a));
        }
        b = b - 1;
    }
    proof {
        assert(trim_end_spec(u) == u.take(b - a)) by {
            let w = u.take(b - a);
            if b > a {
                assert(w.last() == v@[b - 1]);
            }
        }
    }
    let mut r: Vec<char> = Vec::new();
    let mut i: usize = a;
    while i < b
        invariant
            a <= i <= b,
            b <= v@.len(),
            r@ == v@.subrange(a as int, i as int),
        decreases b - i,
    {
        r.push(v[i]);
        proof {
            assert(v@.subrange(a as int, i + 1) =~= v@.subrange(a as int, i as int).push(
                v@[i as int],
            ));
        }
        i = i + 1;
    }
    proof {
        assert(r@ =~= u.take(b - a));
    }
    r
}

/// Append the characters of `x` to `r`.
pub fn append_chars(r: &mut Vec<char>, x: &Vec<char>)
    ensures
        final(r)@ == old(r)@ + x@,
{
    let mut i: usize = 0;
    let ghost base = r@;
    while i < x.len()
        invariant
            i <= x.len(),
            r@ == base + x@.take(i as int),
        decreases x.len() - i,
    {
        r.push(x[i]);
        proof {
            assert(base + x@.take(i + 1) =~= (base + x@.take(i as int)).push(x@[i as int]));
        }
        i = i + 1;
    }
    proof {
        assert(base + x@.take(x@.len() as int) =~= base + x@);
    }
}

/// Append the characters of a string slice to `r`.
pub fn push_lit(r: &mut Vec<char>, lit: &str)
    ensures
        final(r)@ == old(r)@ + lit@,
{
    let n = lit.unicode_len();
    let mut i: usize = 0;
    let ghost base = r@;
    while i < n
        invariant
            i <= n,
            n == lit@.len(),
            r@ == base + lit@.take(i as int),
        decreases n - i,
    {
        r.push(lit.get_char(i));
        proof {
            assert(base + lit@.take(i + 1) =~= (base + lit@.take(i as int)).push(lit@[i as int]));
        }
        i = i + 1;
    }
    proof {
        assert(base + lit@.take(n as int) =~= base + lit@);
    }
}

/// Copy out `v[a..b]`.
pub fn subvec(v: &Vec<char>, a: usize, b: usize) -> (r: Vec<char>)
    requires
        a <= b <= v@.len(),
    ensures
        r@ == v@.subrange(a as int, b as int),
{
    let mut r: Vec<char> = Vec::new();
    let mut i: usize = a;
    while i < b
        invariant
            a <= i <= b,
            b <= v@.len(),
            r@ == v@.subrange(a as int, i as int),
        decreases b - i,
    {
        r.push(v[i]);
        proof {
            assert(v@.subrange(a as int, i + 1) =~= v@.subrange(a as int, i as int).push(
                v@[i as int],
            ));
        }
        i = i + 1;
    }
    r
}

/// The sequence with leading `c` characters removed.
pub open spec fn trim_start_char_spec(s: Seq<char>, c: char) -> Seq<char>
    decreases s.len(),
{
    if s.len() > 0 && s[0] == c {
        trim_start_char_spec(s.drop_first(), c)
    } else {
        s
    }
}

/// The sequence with trailing `c` characters removed.
pub open spec fn trim_end_char_spec(s: Seq<char>, c: char) -> Seq<char>
    decreases s.len(),
{
    if s.len() > 0 && s.last() == c {
        trim_end_char_spec(s.drop_last(), c)
    } else {
        s
    }
}

/// The sequence with every leading and trailing `c` removed.
pub open spec fn trim_matches_spec(s: Seq<char>, c: char) -> Seq<char> {
    trim_end_char_spec(trim_start_char_spec(s, c), c)
}

pub fn trim_matches(v: &Vec<char>, c: char) -> (r: Vec<char>)
    ensures
        r@ == trim_matches_spec(v@, c),
{
    let mut a: usize = 0;
    let mut b: usize = v.len();
    proof {
        assert(v@.skip(0) =~= v@);
    }
    while a < b && v[a] == c
        invariant
            a <= b,
            b == v@.len(),
            trim_start_char_spec(v@, c) == trim_start_char_spec(v@.skip(a as int), c),
        decreases b - a,
    {
        proof {
            assert(v@.skip(a as int).drop_first() =~= v@.skip(a + 1));
        }
        a = a + 1;
    }
    proof {
        assert(trim_start_char_spec(v@, c) == v@.skip(a as int)) by {
            if a < b {
                assert(v@.skip(a as int)[0] == v@[a as int]);
            } else {
                assert(v@.skip(a as int).len() == 0);
            }
        }
    }
    let ghost u: Seq<char> = v@.skip(a as int);
    proof {
        assert(u.take(b - a) =~= u);
    }
    while b > a && v[b - 1] == c
        invariant
            a <= b,
            b <= v@.len(),
            u == v@.skip(a as int),
            trim_end_char_spec(u, c) == trim_end_char_spec(u.take(b - a), c),
        decreases b,
    {
        proof {
            let w = u.take(b - a);
            assert(w.last() == v@[b - 1]);
            assert(w.drop_last() =~= u.take(b - 1 - a));
        }
        b = b - 1;
    }
    proof {
        assert(trim_end_char_spec(u, c) == u.take(b - a)) by {
            let w = u.take(b - a);
            if b > a {
                assert(w.last() == v@[b - 1]);
            }
        }
    }
    let mut r: Vec<char> = Vec::new();
    let mut i: usize = a;
    while i < b
        invariant
            a <= i <= b,
            b <= v@.len(),
            r@ == v@.subrange(a as int, i as int),
        decreases b - i,
    {
        r.push(v[i]);
        proof {
            assert(v@.subrange(a as int, i + 1) =~= v@.subrange(a as int, i as int).push(
                v@[i as int],
            ));
        }
        i = i + 1;
    }
    proof {
        assert(r@ =~= u.take(b - a));
    }
    r
}

/// The views of a sequence of character vectors.
pub open spec fn views_of(s: Seq<Vec<char>>) -> Seq<Seq<char>> {
    s.map_values(|v: Vec<char>| v@)
}

/// Splitting `s` on `sep`, with `cur` the piece accumulated so far.
pub open spec fn split_rec(s: Seq<char>, sep: char, cur: Seq<char>) -> Seq<Seq<char>>
    decreases s.len(),
{
    if s.len() == 0 {
        seq![cur]
    } else if s[0] == sep {
        seq![cur] + split_rec(s.drop_first(), sep, Seq::empty())
    } else {
        split_rec(s.drop_first(), sep, cur.push(s[0]))
    }
}

/// The pieces of `s` between occurrences of `sep`; one more piece than
/// there are separators, in order.
pub open spec fn split_spec(s: Seq<char>, sep: char) -> Seq<Seq<char>> {
    split_rec(s, sep, Seq::empty())
}

pub fn split_char(v: &Vec<char>, sep: char) -> (r: Vec<Vec<char>>)
    ensures
        views_of(r@) == split_spec(v@, sep),
{
    let mut r: Vec<Vec<char>> = Vec::new();
    let mut cur: Vec<char> = Vec::new();
    let mut i: usize = 0;
    proof {
        assert(v@.skip(0) =~= v@);
        assert(views_of(r@) =~= Seq::<Seq<char>>::empty());
    }
    while i < v.len()
        invariant
            i <= v.len(),
            split_spec(v@, sep) == views_of(r@) + split_rec(v@.skip(i as int), sep, cur@),
        decreases v.len() - i,
    {
        let c = v[i];
        proof {
            assert(v@.skip(i as int)[0] == v@[i as int]);
            assert(v@.skip(i as int).drop_first() =~= v@.skip(i + 1));
        }
        if c == sep {
            let done = cur;
            cur = Vec::new();
            proof {
                assert(views_of(r@.push(done)) =~= views_of(r@).push(done@));
                assert(views_of(r@).push(done@) + split_rec(v@.skip(i + 1), sep, Seq::empty())
                    =~= views_of(r@) + (seq![done@] + split_rec(v@.skip(i + 1), sep, Seq::empty())));
            }
            r.push(done);
        } else {
            cur.push(c);
        }
        i = i + 1;
    }
    proof {
        assert(v@.skip(v@.len() as int).len() == 0);
        assert(views_of(r@.push(cur)) =~= views_of(r@).push(cur@));
        assert(views_of(r@).push(cur@) =~= views_of(r@) + seq![cur@]);
    }
    r.push(cur);
    r
}

/// Splitting around one separator splits the two sides independently.
pub proof fn lemma_split_concat(a: Seq<char>, b: Seq<char>, sep: char, cur: Seq<char>)
    ensures
        split_rec(a + seq![sep] + b, sep, cur) == split_rec(a, sep, cur) + split_spec(b, sep),
    decreases a.len(),
{
    let s = a + seq![sep] + b;
    if a.len() == 0 {
        assert(s[0] == sep);
        assert(s.drop_first() =~= b);
        assert(split_rec(s, sep, cur) == seq![cur] + split_spec(b, sep));
        assert(split_rec(a, sep, cur) =~= seq![cur]);
    } else {
        assert(s[0] == a[0]);
        assert(s.drop_first() =~= a.drop_first() + seq![sep] + b);
        if a[0] == sep {
            lemma_split_concat(a.drop_first(), b, sep, Seq::empty());
            assert(seq![cur] + (split_rec(a.drop_first(), sep, Seq::empty()) + split_spec(b, sep)) =~= (
            seq![cur] + split_rec(a.drop_first(), sep, Seq::empty())) + split_spec(b, sep));
        } else {
            lemma_split_concat(a.drop_first(), b, sep, cur.push(a[0]));
        }
    }
}

/// A separator-free sequence splits to a single piece.
pub proof fn lemma_split_single(s: Seq<char>, sep: char, cur: Seq<char>)
    requires
        forall|k: int| 0 <= k < s.len() ==> s[k] != sep,
    ensures
        split_rec(s, sep, cur) == seq![cur + s],
    decreases s.len(),
{
    if s.len() == 0 {
        assert(cur + s =~= cur);
    } else {
        lemma_split_single(s.drop_first(), sep, cur.push(s[0]));
        assert(cur.push(s[0]) + s.drop_first() =~= cur + s);
    }
}

/// A character that is the separator, or that the input avoids, appears
/// in no piece of the split.
pub proof fn lemma_split_avoid(s: Seq<char>, sep: char, cur: Seq<char>, c: char)
    requires
        forall|k: int| 0 <= k < cur.len() ==> cur[k] != c,
        c == sep || (forall|k: int| 0 <= k < s.len() ==> s[k] != c),
    ensures
        forall|i: int, j: int|
            0 <= i < split_rec(s, sep, cur).len() && 0 <= j < split_rec(s, sep, cur)[i].len()
                ==> split_rec(s, sep, cur)[i][j] != c,
    decreases s.len(),
{
    let r = split_rec(s, sep, cur);
    if s.len() == 0 {
        assert(r =~= seq![cur]);
        assert forall|i: int, j: int|
            0 <= i < r.len() && 0 <= j < r[i].len() implies r[i][j] != c by {
            assert(r[i] == cur);
        }
    } else if s[0] == sep {
        lemma_split_avoid(s.drop_first(), sep, Seq::empty(), c);
        let rest = split_rec(s.drop_first(), sep, Seq::empty());
        assert(r == seq![cur] + rest);
        assert forall|i: int, j: int|
            0 <= i < r.len() && 0 <= j < r[i].len() implies r[i][j] != c by {
            if i == 0 {
                assert(r[i] == cur);
            } else {
                assert(r[i] == rest[i - 1]);
            }
        }
    } else {
        assert(s[0] != c);
        let cur2 = cur.push(s[0]);
        assert(forall|k: int| 0 <= k < cur2.len() ==> cur2[k] != c);
        lemma_split_avoid(s.drop_first(), sep, cur2, c);
        assert(r == split_rec(s.drop_first(), sep, cur2));
    }
}

/// The lines of a playlist file joined back into file content: each line
/// followed by a newline.
pub open spec fn join_nl(lines: Seq<Seq<char>>) -> Seq<char>
    decreases lines.len(),
{
    if lines.len() == 0 {
        Seq::empty()
    } else {
        lines[0] + seq!['\n'] + join_nl(lines.drop_first())
    }
}

/// Splitting off one separator-free piece from the front.
pub proof fn lemma_split_one(l: Seq<char>, rest: Seq<char>, sep: char, cur: Seq<char>)
    requires
        forall|i: int| 0 <= i < l.len() ==> l[i] != sep,
    ensures
        split_rec(l + seq![sep] + rest, sep, cur) == seq![cur + l] + split_rec(
            rest,
            sep,
            Seq::empty(),
        ),
    decreases l.len(),
{
    let s = l + seq![sep] + rest;
    if l.len() == 0 {
        assert(s[0] == sep);
        assert(s.drop_first() =~= rest);
        assert(cur + l =~= cur);
    } else {
        assert(s[0] == l[0]);
        assert(s.drop_first() =~= l.drop_first() + seq![sep] + rest);
        lemma_split_one(l.drop_first(), rest, sep, cur.push(l[0]));
        assert(cur.push(l[0]) + l.drop_first() =~= cur + l);
    }
}

/// Splitting the joined lines on newline recovers the lines, plus the
/// empty piece after the final newline.
pub proof fn lemma_split_join(lines: Seq<Seq<char>>)
    requires
        forall|i: int, j: int|
            0 <= i < lines.len() && 0 <= j < lines[i].len() ==> lines[i][j] != '\n',
    ensures
        split_spec(join_nl(lines), '\n') == lines + seq![Seq::<char>::empty()],
    decreases lines.len(),
{
    if lines.len() == 0 {
        assert(split_spec(join_nl(lines), '\n') =~= seq![Seq::<char>::empty()]);
        assert(lines + seq![Seq::<char>::empty()] =~= seq![Seq::<char>::empty()]);
    } else {
        lemma_split_one(lines[0], join_nl(lines.drop_first()), '\n', Seq::empty());
        lemma_split_join(lines.drop_first());
        assert(Seq::<char>::empty() + lines[0] =~= lines[0]);
        assert(seq![lines[0]] + (lines.drop_first() + seq![Seq::<char>::empty()]) =~= lines + seq![
            Seq::<char>::empty(),
        ]);
    }
}

/// The pattern `p` occurs in `s` at position `j`.
pub open spec fn sub_at(s: Seq<char>, p: Seq<char>, j: int) -> bool {
    0 <= j && j + p.len() <= s.len() && (forall|k: int| 0 <= k < p.len() ==> s[j + k] == p[k])
}

/// The position of the first occurrence of pattern `p` in `s`, if any.
pub open spec fn find_sub_spec(s: Seq<char>, p: Seq<char>) -> Option<int>
    decreases s.len(),
{
    if s.len() < p.len() {
        None
    } else if sub_at(s, p, 0) {
        Some(0)
    } else {
        match find_sub_spec(s.drop_first(), p) {
            Some(i) => Some(i + 1),
            None => None,
        }
    }
}

pub proof fn lemma_find_sub(s: Seq<char>, p: Seq<char>)
    ensures
        match find_sub_spec(s, p) {
            Some(i) => sub_at(s, p, i) && (forall|j: int| 0 <= j < i ==> !sub_at(s, p, j)),
            None => forall|j: int| 0 <= j ==> !sub_at(s, p, j),
        },
    decreases s.len(),
{
    if s.len() >= p.len() && !sub_at(s, p, 0) {
        let t = s.drop_first();
        lemma_find_sub(t, p);
        assert(forall|j: int| 0 <= j < s.len() - 1 ==> t[j] == s[j + 1]);
        assert forall|j: int| 1 <= j implies (sub_at(s, p, j) <==> sub_at(t, p, j - 1)) by {
            if sub_at(s, p, j) {
                assert forall|k: int| 0 <= k < p.len() implies t[j - 1 + k] == p[k] by {
                    assert(s[j + k] == p[k]);
                }
            }
            if sub_at(t, p, j - 1) {
                assert forall|k: int| 0 <= k < p.len() implies s[j + k] == p[k] by {
                    assert(t[j - 1 + k] == p[k]);
                }
            }
        }
    }
}

proof fn lemma_find_sub_unique(s: Seq<char>, p: Seq<char>, i: int)
    requires
        sub_at(s, p, i),
        forall|j: int| 0 <= j < i ==> !sub_at(s, p, j),
    ensures
        find_sub_spec(s, p) == Some(i),
    decreases i,
{
    if i == 0 {
    } else {
        let t = s.drop_first();
        assert(forall|j: int| 0 <= j < s.len() - 1 ==> t[j] == s[j + 1]);
        assert(sub_at(t, p, i - 1)) by {
            assert forall|k: int| 0 <= k < p.len() implies t[i - 1 + k] == p[k] by {
                assert(s[i + k] == p[k]);
            }
        }
        assert forall|j: int| 0 <= j < i - 1 implies !sub_at(t, p, j) by {
            if sub_at(t, p, j) {
                assert forall|k: int| 0 <= k < p.len() implies s[j + 1 + k] == p[k] by {
                    assert(t[j + k] == p[k]);
                }
                assert(sub_at(s, p, j + 1));
            }
        }
        lemma_find_sub_unique(t, p, i - 1);
    }
}

/// Find the first occurrence of the pattern `p` in `v`.
pub fn find_sub(v: &Vec<char>, p: &str) -> (r: Option<usize>)
    ensures
        match r {
            Some(i) => find_sub_spec(v@, p@) == Some(i as int) && i + p@.len() <= v@.len(),
            None => find_sub_spec(v@, p@) is None,
        },
{
    proof {
        lemma_find_sub(v@, p@);
    }
    let pn = p.unicode_len();
    if pn > v.len() {
        return None;
    }
    let last = v.len() - pn;
    let mut j: usize = 0;
    while j <= last
        invariant
            last == v@.len() - pn,
            pn == p@.len(),
            j <= last + 1,
            forall|k: int| 0 <= k < j ==> !sub_at(v@, p@, k),
        decreases last + 1 - j,
    {
        let mut m: usize = 0;
        let mut ok: bool = true;
        while m < pn
            invariant
                m <= pn,
                pn == p@.len(),
                j + pn <= v@.len(),
                ok ==> forall|k: int| 0 <= k < m ==> v@[j + k] == p@[k],
                !ok ==> !sub_at(v@, p@, j as int),
            decreases pn - m,
        {
            if ok && v[j + m] != p.get_char(m) {
                ok = false;
                proof {
                    assert(v@[j + m] != p@[m as int]);
                }
            }
            m = m + 1;
        }
        if ok {
            proof {
                assert(sub_at(v@, p@, j as int));
                lemma_find_sub_unique(v@, p@, j as int);
            }
            return Some(j);
        }
        j = j + 1;
    }
    proof {
        assert forall|k: int| 0 <= k implies !sub_at(v@, p@, k) by {
            if k <= last {
                assert(!sub_at(v@, p@, k));
            }
        }
    }
    None
}

/// The position of the first occurrence of `c` in `s`, if any.
pub open spec fn find_spec(s: Seq<char>, c: char) -> Option<int>
    decreases s.len(),
{
    if s.len() == 0 {
        None
    } else if s[0] == c {
        Some(0)
    } else {
        match find_spec(s.drop_first(), c) {
            Some(i) => Some(i + 1),
            None => None,
        }
    }
}

/// What `find_spec` says, element by element.
pub proof fn lemma_find_spec(s: Seq<char>, c: char)
    ensures
        match find_spec(s, c) {
            Some(i) => 0 <= i < s.len() && s[i] == c && (forall|j: int| 0 <= j < i ==> s[j] != c),
            None => forall|j: int| 0 <= j < s.len() ==> s[j] != c,
        },
    decreases s.len(),
{
    if s.len() > 0 && s[0] != c {
        let t = s.drop_first();
        lemma_find_spec(t, c);
        assert(forall|j: int| 1 <= j < s.len() ==> s[j] == t[j - 1]);
        match find_spec(t, c) {
            Some(i) => {
                assert(s[i + 1] == t[i]);
                assert(forall|j: int| 1 <= j < i + 1 ==> s[j] == t[j - 1] && t[j - 1] != c);
            },
            None => {
                assert(forall|j: int| 1 <= j < s.len() ==> s[j] == t[j - 1] && t[j - 1] != c);
            },
        }
    }
}

pub fn find_char(v: &Vec<char>, c: char) -> (r: Option<usize>)
    ensures
        match r {
            Some(i) => find_spec(v@, c) == Some(i as int),
            None => find_spec(v@, c) is None,
        },
{
    proof {
        lemma_find_spec(v@, c);
    }
    let mut i: usize = 0;
    while i < v.len()
        invariant
            i <= v.len(),
            forall|j: int| 0 <= j < i ==> v@[j] != c,
        decreases v.len() - i,
    {
        if v[i] == c {
            proof {
                lemma_find_unique(v@, c, i as int);
            }
            return Some(i);
        }
        i = i + 1;
    }
    None
}

/// A position holding `c` with none before it is what `find_spec` finds.
pub proof fn lemma_find_unique(s: Seq<char>, c: char, i: int)
    requires
        0 <= i < s.len(),
        s[i] == c,
        forall|j: int| 0 <= j < i ==> s[j] != c,
    ensures
        find_spec(s, c) == Some(i),
    decreases s.len(),
{
    if s[0] != c {
        lemma_find_unique(s.drop_first(), c, i - 1);
    }
}

} // verus!

//! Character-sequence utilities for slash-delimited topic names:
//! splitting and joining on the separator, lexicographic order on
//! segments, and substring / prefix tests. Each executable function is
//! proved against the specification-level form it implements.

use vstd::prelude::*;
use vstd::string::*;

verus! {

/// The views of a sequence of owned strings.
pub open spec fn views(v: Seq<String>) -> Seq<Seq<char>> {
    v.map_values(|s: String| s@)
}

/// Does `s` contain the character `c`?
pub open spec fn has_char(s: Seq<char>, c: char) -> bool {
    exists|i: int| 0 <= i < s.len() && s[i] == c
}

/// `needle` occurs in `hay` starting at position `i`.
pub open spec fn matches_at(hay: Seq<char>, needle: Seq<char>, i: int) -> bool {
    0 <= i && i + needle.len() <= hay.len() && hay.subrange(i, i + needle.len() as int) == needle
}

/// Case-sensitive substring containment.
pub open spec fn contains_seq(hay: Seq<char>, needle: Seq<char>) -> bool {
    exists|i: int| matches_at(hay, needle, i)
}

/// `p` is a prefix of `s`.
pub open spec fn prefix_of(s: Seq<char>, p: Seq<char>) -> bool {
    p.len() <= s.len() && s.subrange(0, p.len() as int) == p
}

/// Strict lexicographic order on character sequences, by code point.
pub open spec fn lex_lt(a: Seq<char>, b: Seq<char>) -> bool
    decreases a.len(),
{
    b.len() > 0 && (a.len() == 0 || (a[0] as u32) < (b[0] as u32) || (a[0] == b[0] && lex_lt(
        a.drop_first(),
        b.drop_first(),
    )))
}

proof fn lemma_char_cast_injective(a: char, b: char)
    requires
        a != b,
    ensures
        (a as u32) != (b as u32),
{
}

/// `lex_lt` is trichotomous: of `a < b`, `b < a` and `a == b`, exactly one holds.
pub proof fn lemma_lex_trichotomy(a: Seq<char>, b: Seq<char>)
    ensures
        lex_lt(a, b) || lex_lt(b, a) || a == b,
        lex_lt(a, b) ==> !lex_lt(b, a) && a != b,
    decreases a.len(),
{
    if a.len() == 0 || b.len() == 0 {
        if a.len() == 0 && b.len() == 0 {
            assert(a =~= b);
        }
    } else if a[0] == b[0] {
        lemma_lex_trichotomy(a.drop_first(), b.drop_first());
        if a.drop_first() == b.drop_first() {
            assert forall|i: int| 0 <= i < a.len() implies a[i] == b[i] by {
                if i > 0 {
                    assert(a[i] == a.drop_first()[i - 1]);
                    assert(b[i] == b.drop_first()[i - 1]);
                }
            }
            assert(a =~= b);
        }
        if a == b {
            assert(a.drop_first() =~= b.drop_first());
        }
    } else {
        lemma_char_cast_injective(a[0], b[0]);
        if (a[0] as u32) < (b[0] as u32) {
            assert(lex_lt(a, b));
            assert(!lex_lt(b, a));
        } else {
            assert((b[0] as u32) < (a[0] as u32));
            assert(lex_lt(b, a));
            assert(!lex_lt(a, b));
        }
    }
}

/// `lex_lt` is transitive.
pub proof fn lemma_lex_trans(a: Seq<char>, b: Seq<char>, c: Seq<char>)
    requires
        lex_lt(a, b),
        lex_lt(b, c),
    ensures
        lex_lt(a, c),
    decreases a.len(),
{
    if a.len() == 0 {
    } else {
        assert(b.len() > 0 && c.len() > 0);
        if a[0] == b[0] && b[0] == c[0] {
            lemma_lex_trans(a.drop_first(), b.drop_first(), c.drop_first());
        }
    }
}

/// Two strictly ordered sequences with the same members are equal.
pub proof fn lemma_strictly_sorted_same_members(a: Seq<Seq<char>>, b: Seq<Seq<char>>)
    requires
        forall|j1: int, j2: int| 0 <= j1 < j2 < a.len() ==> lex_lt(#[trigger] a[j1], #[trigger] a[j2]),
        forall|j1: int, j2: int| 0 <= j1 < j2 < b.len() ==> lex_lt(#[trigger] b[j1], #[trigger] b[j2]),
        forall|t: Seq<char>| a.contains(t) == b.contains(t),
    ensures
        a == b,
    decreases a.len(),
{
    if a.len() == 0 {
        if b.len() > 0 {
            assert(b.contains(b[0]));
            assert(a.contains(b[0]));
        }
        assert(a =~= b);
    } else {
        assert(a.contains(a[0]));
        assert(b.contains(a[0]));
        let i = choose|i: int| 0 <= i < b.len() && b[i] == a[0];
        assert(b.contains(b[0]));
        assert(a.contains(b[0]));
        let j = choose|j: int| 0 <= j < a.len() && a[j] == b[0];
        if i > 0 && j > 0 {
            assert(lex_lt(b[0], b[i]));
            assert(lex_lt(a[0], a[j]));
            lemma_lex_trichotomy(a[0], b[0]);
            lemma_lex_trans(a[0], b[0], a[0]);
            lemma_lex_trichotomy(a[0], a[0]);
        }
        assert(a[0] == b[0]);
        let ar = a.drop_first();
        let br = b.drop_first();
        assert forall|j1: int, j2: int| 0 <= j1 < j2 < ar.len() implies lex_lt(
            #[trigger] ar[j1],
            #[trigger] ar[j2],
        ) by {
            assert(ar[j1] == a[j1 + 1] && ar[j2] == a[j2 + 1]);
        }
        assert forall|j1: int, j2: int| 0 <= j1 < j2 < br.len() implies lex_lt(
            #[trigger] br[j1],
            #[trigger] br[j2],
        ) by {
            assert(br[j1] == b[j1 + 1] && br[j2] == b[j2 + 1]);
        }
        assert forall|t: Seq<char>| ar.contains(t) == br.contains(t) by {
            if ar.contains(t) {
                let x = choose|x: int| 0 <= x < ar.len() && ar[x] == t;
                assert(a[x + 1] == t);
                assert(lex_lt(a[0], t));
                assert(b.contains(t));
                let y = choose|y: int| 0 <= y < b.len() && b[y] == t;
                lemma_lex_trichotomy(b[0], t);
                assert(y != 0);
                assert(br[y - 1] == t);
            }
            if br.contains(t) {
                let x = choose|x: int| 0 <= x < br.len() && br[x] == t;
                assert(b[x + 1] == t);
                assert(lex_lt(b[0], t));
                assert(a.contains(t));
                let y = choose|y: int| 0 <= y < a.len() && a[y] == t;
                lemma_lex_trichotomy(a[0], t);
                assert(y != 0);
                assert(ar[y - 1] == t);
            }
        }
        lemma_strictly_sorted_same_members(ar, br);
        assert forall|x: int| 0 <= x < a.len() implies a[x] == b[x] by {
            if x > 0 {
                assert(a[x] == ar[x - 1]);
                assert(b[x] == br[x - 1]);
            }
        }
        assert(a =~= b);
    }
}

/// The first index of `c` in `s`, or a negative value when `c` does not occur.
pub open spec fn find_char(s: Seq<char>, c: char) -> int
    decreases s.len(),
{
    if s.len() == 0 {
        -1
    } else if s[0] == c {
        0
    } else if find_char(s.drop_first(), c) < 0 {
        -1
    } else {
        find_char(s.drop_first(), c) + 1
    }
}

/// What `find_char` returns: the first occurrence when there is one,
/// a negative value exactly when there is none.
pub proof fn lemma_find_char(s: Seq<char>, c: char)
    ensures
        find_char(s, c) >= 0 ==> 0 <= find_char(s, c) < s.len() && s[find_char(s, c)] == c && (
        forall|i: int| 0 <= i < find_char(s, c) ==> s[i] != c),
        find_char(s, c) < 0 ==> !has_char(s, c),
    decreases s.len(),
{
    if s.len() == 0 {
    } else if s[0] == c {
    } else {
        lemma_find_char(s.drop_first(), c);
        let r = find_char(s.drop_first(), c);
        if r >= 0 {
            assert forall|i: int| 0 <= i < r + 1 implies s[i] != c by {
                if i > 0 {
                    assert(s[i] == s.drop_first()[i - 1]);
                }
            }
        } else {
            if has_char(s, c) {
                let i = choose|i: int| 0 <= i < s.len() && s[i] == c;
                assert(i > 0);
                assert(s.drop_first()[i - 1] == c);
                assert(has_char(s.drop_first(), c));
            }
        }
    }
}

/// `find_char` returns `j` when `c` first occurs at `j`.
pub proof fn lemma_find_char_exact(s: Seq<char>, c: char, j: int)
    requires
        0 <= j < s.len(),
        s[j] == c,
        forall|k: int| 0 <= k < j ==> s[k] != c,
    ensures
        find_char(s, c) == j,
{
    lemma_find_char(s, c);
    let r = find_char(s, c);
    if r < 0 {
        assert(has_char(s, c));
    } else {
        if r < j {
            assert(s[r] != c);
        }
        if j < r {
            assert(s[j] != c);
        }
    }
}

/// `s` split on the separator `c`; never empty, and no part holds `c`.
pub open spec fn split_char(s: Seq<char>, c: char) -> Seq<Seq<char>>
    decreases s.len(),
{
    let r = find_char(s, c);
    if r < 0 || r >= s.len() {
        seq![s]
    } else {
        seq![s.subrange(0, r)] + split_char(s.subrange(r + 1, s.len() as int), c)
    }
}

/// `parts` joined with the separator `c` between consecutive parts.
pub open spec fn join_char(parts: Seq<Seq<char>>, c: char) -> Seq<char>
    decreases parts.len(),
{
    if parts.len() == 0 {
        Seq::empty()
    } else if parts.len() == 1 {
        parts[0]
    } else {
        parts[0] + seq![c] + join_char(parts.drop_first(), c)
    }
}

/// Joining one more part appends one separator and that part.
pub proof fn lemma_join_push(parts: Seq<Seq<char>>, x: Seq<char>, c: char)
    requires
        parts.len() >= 1,
    ensures
        join_char(parts.push(x), c) == join_char(parts, c) + seq![c] + x,
    decreases parts.len(),
{
    if parts.len() == 1 {
        let p = parts.push(x);
        assert(p.drop_first() =~= seq![x]);
        assert(p[0] == parts[0]);
        assert(join_char(p.drop_first(), c) == x);
    } else {
        let p = parts.push(x);
        assert(p[0] == parts[0]);
        assert(p.drop_first() =~= parts.drop_first().push(x));
        lemma_join_push(parts.drop_first(), x, c);
        assert(parts[0] + seq![c] + (join_char(parts.drop_first(), c) + seq![c] + x) =~= (parts[0]
            + seq![c] + join_char(parts.drop_first(), c)) + seq![c] + x);
    }
}

/// A split is never empty and none of its parts holds the separator.
pub proof fn lemma_split_props(s: Seq<char>, c: char)
    ensures
        split_char(s, c).len() >= 1,
        forall|k: int| 0 <= k < split_char(s, c).len() ==> !has_char(
            #[trigger] split_char(s, c)[k],
            c,
        ),
    decreases s.len(),
{
    lemma_find_char(s, c);
    let r = find_char(s, c);
    if r < 0 || r >= s.len() {
        if has_char(s, c) {
            let i = choose|i: int| 0 <= i < s.len() && s[i] == c;
            assert(s[i] == c);
        }
        assert(split_char(s, c) =~= seq![s]);
    } else {
        let head = s.subrange(0, r);
        let tail = s.subrange(r + 1, s.len() as int);
        lemma_split_props(tail, c);
        assert(!has_char(head, c)) by {
            if has_char(head, c) {
                let i = choose|i: int| 0 <= i < head.len() && head[i] == c;
                assert(s[i] == c);
            }
        }
        assert forall|k: int| 0 <= k < split_char(s, c).len() implies !has_char(
            #[trigger] split_char(s, c)[k],
            c,
        ) by {
            if k == 0 {
                assert(split_char(s, c)[0] == head);
            } else {
                assert(split_char(s, c)[k] == split_char(tail, c)[k - 1]);
            }
        }
    }
}

/// Joining the parts of a split yields the original sequence.
pub proof fn lemma_join_split(s: Seq<char>, c: char)
    ensures
        join_char(split_char(s, c), c) == s,
    decreases s.len(),
{
    lemma_find_char(s, c);
    let r = find_char(s, c);
    if r < 0 || r >= s.len() {
    } else {
        let head = s.subrange(0, r);
        let tail = s.subrange(r + 1, s.len() as int);
        lemma_join_split(tail, c);
        lemma_split_props(tail, c);
        let parts = split_char(s, c);
        assert(parts.len() >= 2);
        assert(parts.drop_first() =~= split_char(tail, c));
        assert(parts[0] == head);
        assert(s[r] == c);
        assert(head + seq![c] + tail =~= s);
    }
}

/// The first separator in `a + [c] + b` stands right after `a`,
/// when `a` itself is free of the separator.
pub proof fn lemma_find_char_concat(a: Seq<char>, b: Seq<char>, c: char)
    requires
        !has_char(a, c),
    ensures
        find_char(a + seq![c] + b, c) == a.len(),
{
    let s = a + seq![c] + b;
    assert(s[a.len() as int] == c);
    assert forall|k: int| 0 <= k < a.len() implies s[k] != c by {
        assert(s[k] == a[k]);
        if a[k] == c {
            assert(has_char(a, c));
        }
    }
    lemma_find_char_exact(s, c, a.len() as int);
}

/// Splitting a join yields the original parts, when each part is free
/// of the separator.
pub proof fn lemma_split_join(parts: Seq<Seq<char>>, c: char)
    requires
        parts.len() >= 1,
        forall|k: int| 0 <= k < parts.len() ==> !has_char(#[trigger] parts[k], c),
    ensures
        split_char(join_char(parts, c), c) == parts,
    decreases parts.len(),
{
    if parts.len() == 1 {
        let s = parts[0];
        lemma_find_char(s, c);
        if find_char(s, c) >= 0 {
            assert(has_char(s, c));
        }
        assert(split_char(join_char(parts, c), c) =~= parts);
    } else {
        let rest = parts.drop_first();
        let s = join_char(parts, c);
        assert(s == parts[0] + seq![c] + join_char(rest, c));
        lemma_find_char_concat(parts[0], join_char(rest, c), c);
        lemma_find_char(s, c);
        let r = find_char(s, c);
        assert(r == parts[0].len());
        assert(r < s.len());
        assert(s.subrange(0, r) =~= parts[0]);
        assert(s.subrange(r + 1, s.len() as int) =~= join_char(rest, c));
        assert forall|k: int| 0 <= k < rest.len() implies !has_char(#[trigger] rest[k], c) by {
            assert(rest[k] == parts[k + 1]);
        }
        lemma_split_join(rest, c);
        assert(split_char(s, c) =~= seq![parts[0]] + split_char(join_char(rest, c), c));
        assert(split_char(s, c) =~= parts);
    }
}

/// An ASCII decimal digit.
pub open spec fn is_digit_char(c: char) -> bool {
    48 <= (c as u32) <= 57
}

/// `len` consecutive ASCII digits stand in `s` starting at `i`.
pub open spec fn digit_run_at(s: Seq<char>, i: int, len: int) -> bool {
    0 <= i && i + len <= s.len() && (forall|j: int|
        i <= j < i + len ==> is_digit_char(#[trigger] s[j]))
}

/// Somewhere in `s` stand `len` consecutive ASCII digits.
pub open spec fn has_digit_run(s: Seq<char>, len: int) -> bool {
    exists|i: int| digit_run_at(s, i, len)
}

/// Does `s` hold a run of at least `limit` consecutive ASCII digits?
pub fn str_has_digit_run(s: &str, limit: usize) -> (r: bool)
    requires
        limit >= 1,
    ensures
        r == has_digit_run(s@, limit as int),
{
    let n = s.unicode_len();
    let mut i: usize = 0;
    let mut run: usize = 0;
    while i < n
        invariant
            i <= n,
            n == s@.len(),
            run <= i,
            1 <= limit,
            run < limit,
            forall|j: int| i - run <= j < i ==> is_digit_char(#[trigger] s@[j]),
            run < i ==> !is_digit_char(s@[i - run - 1]),
            forall|k: int| 0 <= k && k + limit <= i ==> !digit_run_at(s@, k, limit as int),
        decreases n - i,
    {
        let c = s.get_char(i);
        if (c as u32) >= 48 && (c as u32) <= 57 {
            run += 1;
            if run >= limit {
                proof {
                    assert forall|j: int| i + 1 - limit <= j < i + 1 implies is_digit_char(
                        #[trigger] s@[j],
                    ) by {}
                    assert(digit_run_at(s@, i + 1 - limit, limit as int));
                }
                return true;
            }
            proof {
                assert forall|k: int| 0 <= k && k + limit <= i + 1 implies !digit_run_at(
                    s@,
                    k,
                    limit as int,
                ) by {
                    if k + limit <= i {
                    } else {
                        let p = i - run;
                        assert(k <= p) by {
                            assert(k == i + 1 - limit);
                        }
                        assert(!is_digit_char(s@[p]));
                        assert(p < k + limit);
                    }
                }
            }
        } else {
            run = 0;
            proof {
                assert forall|k: int| 0 <= k && k + limit <= i + 1 implies !digit_run_at(
                    s@,
                    k,
                    limit as int,
                ) by {
                    if k + limit <= i {
                    } else {
                        assert(!is_digit_char(s@[i as int]));
                        assert(k <= i < k + limit);
                    }
                }
            }
        }
        i += 1;
    }
    proof {
        if has_digit_run(s@, limit as int) {
            let k = choose|k: int| digit_run_at(s@, k, limit as int);
            assert(!digit_run_at(s@, k, limit as int));
        }
    }
    false
}

/// A substring carries each of its characters into the surrounding
/// text.
pub proof fn lemma_contains_has_char(hay: Seq<char>, needle: Seq<char>, c: char)
    requires
        contains_seq(hay, needle),
        has_char(needle, c),
    ensures
        has_char(hay, c),
{
    let i = choose|i: int| matches_at(hay, needle, i);
    let j = choose|j: int| 0 <= j < needle.len() && needle[j] == c;
    assert(hay.subrange(i, i + needle.len() as int)[j] == needle[j]);
    assert(hay[i + j] == c);
}

/// Equality of two string slices, decided character by character.
pub fn str_eq(a: &str, b: &str) -> (r: bool)
    ensures
        r == (a@ == b@),
{
    let alen = a.unicode_len();
    let blen = b.unicode_len();
    if alen != blen {
        return false;
    }
    let mut i: usize = 0;
    while i < alen
        invariant
            i <= alen,
            alen == a@.len(),
            alen == b@.len(),
            forall|j: int| 0 <= j < i ==> a@[j] == b@[j],
        decreases alen - i,
    {
        if a.get_char(i) != b.get_char(i) {
            return false;
        }
        i += 1;
    }
    proof {
        assert(a@ =~= b@);
    }
    true
}

/// A helper fact: dropping one equal head character on both sides keeps
/// the lexicographic comparison of the remainders.
proof fn lemma_lex_skip(a: Seq<char>, b: Seq<char>, i: int)
    requires
        0 <= i < a.len(),
        0 <= i < b.len(),
        a[i] == b[i],
    ensures
        lex_lt(a.skip(i), b.skip(i)) == lex_lt(a.skip(i + 1), b.skip(i + 1)),
{
    let sa = a.skip(i);
    let sb = b.skip(i);
    assert(sa[0] == a[i]);
    assert(sb[0] == b[i]);
    assert(sa.drop_first() =~= a.skip(i + 1));
    assert(sb.drop_first() =~= b.skip(i + 1));
}

/// Strict lexicographic comparison of two string slices.
pub fn str_lt(a: &str, b: &str) -> (r: bool)
    ensures
        r == lex_lt(a@, b@),
{
    let alen = a.unicode_len();
    let blen = b.unicode_len();
    let mut i: usize = 0;
    proof {
        assert(a@.skip(0) =~= a@);
        assert(b@.skip(0) =~= b@);
    }
    while i < alen && i < blen
        invariant
            i <= alen,
            i <= blen,
            alen == a@.len(),
            blen == b@.len(),
            lex_lt(a@, b@) == lex_lt(a@.skip(i as int), b@.skip(i as int)),
        decreases alen - i,
    {
        let ca = a.get_char(i);
        let cb = b.get_char(i);
        if (ca as u32) < (cb as u32) {
            proof {
                assert(a@.skip(i as int)[0] == ca);
                assert(b@.skip(i as int)[0] == cb);
            }
            return true;
        }
        if ca != cb {
            proof {
                assert(a@.skip(i as int)[0] == ca);
                assert(b@.skip(i as int)[0] == cb);
            }
            return false;
        }
        proof {
            lemma_lex_skip(a@, b@, i as int);
        }
        i += 1;
    }
    proof {
        if i == alen {
            assert(a@.skip(i as int).len() == 0);
        } else {
            assert(b@.skip(i as int).len() == 0);
        }
    }
    i >= alen && i < blen
}

/// Does `needle` occur in `hay` starting exactly at `i`?
fn str_matches_at(hay: &str, needle: &str, i: usize) -> (r: bool)
    requires
        i + needle@.len() <= hay@.len(),
        hay@.len() <= usize::MAX,
    ensures
        r == matches_at(hay@, needle@, i as int),
{
    let n = needle.unicode_len();
    let mut j: usize = 0;
    while j < n
        invariant
            j <= n,
            n == needle@.len(),
            i + n <= hay@.len(),
            hay@.len() <= usize::MAX,
            forall|k: int| 0 <= k < j ==> hay@[i + k] == needle@[k],
        decreases n - j,
    {
        if hay.get_char(i + j) != needle.get_char(j) {
            proof {
                assert(hay@.subrange(i as int, i + n as int)[j as int] == hay@[i + j]);
            }
            return false;
        }
        j += 1;
    }
    proof {
        assert(hay@.subrange(i as int, i + n as int) =~= needle@);
    }
    true
}

/// Case-sensitive substring search.
pub fn str_contains(hay: &str, needle: &str) -> (r: bool)
    ensures
        r == contains_seq(hay@, needle@),
{
    let h = hay.unicode_len();
    let n = needle.unicode_len();
    if n > h {
        proof {
            if contains_seq(hay@, needle@) {
                let i = choose|i: int| matches_at(hay@, needle@, i);
                assert(i + needle@.len() <= hay@.len());
            }
        }
        return false;
    }
    if n == 0 {
        proof {
            assert(hay@.subrange(0, 0) =~= needle@);
            assert(matches_at(hay@, needle@, 0));
        }
        return true;
    }
    let mut i: usize = 0;
    while i <= h - n
        invariant
            1 <= n <= h,
            h == hay@.len(),
            n == needle@.len(),
            i <= h - n + 1,
            forall|k: int| 0 <= k < i ==> !matches_at(hay@, needle@, k),
        decreases h + 1 - n - i,
    {
        if str_matches_at(hay, needle, i) {
            return true;
        }
        i += 1;
    }
    proof {
        if contains_seq(hay@, needle@) {
            let k = choose|k: int| matches_at(hay@, needle@, k);
            assert(k <= h - n);
            assert(!matches_at(hay@, needle@, k));
        }
    }
    false
}

/// Does `s` start with `p`?
pub fn str_starts_with(s: &str, p: &str) -> (r: bool)
    ensures
        r == prefix_of(s@, p@),
{
    let slen = s.unicode_len();
    let plen = p.unicode_len();
    if plen > slen {
        return false;
    }
    str_matches_at(s, p, 0)
}

/// First position at or after `from` holding the topic separator.
fn find_sep(s: &str, from: usize, n: usize) -> (r: Option<usize>)
    requires
        n == s@.len(),
        from <= n,
    ensures
        match r {
            Some(j) => from <= j < n && s@[j as int] == '/' && forall|k: int|
                from <= k < j ==> s@[k] != '/',
            None => forall|k: int| from <= k < n ==> s@[k] != '/',
        },
{
    let mut j: usize = from;
    while j < n
        invariant
            from <= j <= n,
            n == s@.len(),
            forall|k: int| from <= k < j ==> s@[k] != '/',
        decreases n - j,
    {
        if s.get_char(j) == '/' {
            return Some(j);
        }
        j += 1;
    }
    None
}

/// A topic name split on `/` into its segments, in order.
pub fn split_topic(s: &str) -> (parts: Vec<String>)
    ensures
        views(parts@) == split_char(s@, '/'),
        parts@.len() >= 1,
{
    let n = s.unicode_len();
    let mut parts: Vec<String> = Vec::new();
    let mut start: usize = 0;
    proof {
        assert(s@.subrange(0, n as int) =~= s@);
        assert(views(parts@) =~= Seq::<Seq<char>>::empty());
        assert(views(parts@) + split_char(s@, '/') =~= split_char(s@, '/'));
    }
    loop
        invariant
            start <= n,
            n == s@.len(),
            split_char(s@, '/') == views(parts@) + split_char(
                s@.subrange(start as int, n as int),
                '/',
            ),
        decreases n - start,
    {
        let ghost tail = s@.subrange(start as int, n as int);
        match find_sep(s, start, n) {
            None => {
                let seg = s.substring_char(start, n).to_owned();
                proof {
                    assert forall|k: int| 0 <= k < tail.len() implies tail[k] != '/' by {
                        assert(tail[k] == s@[start + k]);
                    }
                    lemma_find_char(tail, '/');
                    if find_char(tail, '/') >= 0 {
                        assert(tail[find_char(tail, '/')] == '/');
                    }
                    assert(split_char(tail, '/') == seq![tail]);
                }
                parts.push(seg);
                proof {
                    assert(views(parts@) =~= split_char(s@, '/'));
                    lemma_split_props(s@, '/');
                }
                return parts;
            },
            Some(j) => {
                let seg = s.substring_char(start, j).to_owned();
                let ghost old_parts = parts@;
                parts.push(seg);
                proof {
                    assert forall|k: int| 0 <= k < j - start implies tail[k] != '/' by {
                        assert(tail[k] == s@[start + k]);
                    }
                    assert(tail[j - start] == s@[j as int]);
                    lemma_find_char_exact(tail, '/', j - start);
                    let r = j - start;
                    assert(tail.subrange(0, r) =~= s@.subrange(start as int, j as int));
                    assert(tail.subrange(r + 1, tail.len() as int) =~= s@.subrange(
                        j + 1,
                        n as int,
                    ));
                    assert(split_char(tail, '/') == seq![seg@] + split_char(
                        s@.subrange(j + 1, n as int),
                        '/',
                    ));
                    assert(views(parts@) =~= views(old_parts).push(seg@));
                    assert(views(parts@) + split_char(s@.subrange(j + 1, n as int), '/') =~= views(
                        old_parts,
                    ) + split_char(tail, '/'));
                }
                start = j + 1;
            },
        }
    }
}

/// Whether the query filter keeps an entry: some query item contains
/// the entry as a substring, or the entry starts with some query item.
/// An empty query set keeps every entry.
pub open spec fn query_keeps(q: Seq<Seq<char>>, t: Seq<char>) -> bool {
    q.len() == 0 || exists|j: int|
        0 <= j < q.len() && (contains_seq(#[trigger] q[j], t) || prefix_of(t, q[j]))
}

/// The views of an optional list of strings.
pub open spec fn opt_views(q: Option<Vec<String>>) -> Option<Seq<Seq<char>>> {
    match q {
        Some(v) => Some(views(v@)),
        None => None,
    }
}

/// Decide the query filter for one entry.
pub fn query_keeps_exec(q: &Vec<String>, t: &String) -> (r: bool)
    ensures
        r == query_keeps(views(q@), t@),
{
    let n = q.len();
    if n == 0 {
        return true;
    }
    let mut j: usize = 0;
    while j < n
        invariant
            j <= n,
            n == q@.len(),
            n > 0,
            forall|k: int|
                0 <= k < j ==> !(contains_seq(#[trigger] views(q@)[k], t@) || prefix_of(
                    t@,
                    views(q@)[k],
                )),
        decreases n - j,
    {
        proof {
            assert(views(q@)[j as int] == q@[j as int]@);
        }
        if str_contains(q[j].as_str(), t.as_str()) || str_starts_with(t.as_str(), q[j].as_str()) {
            return true;
        }
        j += 1;
    }
    false
}

/// Membership of a topic string in a list of topic strings.
pub fn contains_topic(list: &Vec<String>, t: &String) -> (r: bool)
    ensures
        r == views(list@).contains(t@),
{
    let n = list.len();
    let mut k: usize = 0;
    while k < n
        invariant
            k <= n,
            n == list@.len(),
            forall|x: int| 0 <= x < k ==> views(list@)[x] != t@,
        decreases n - k,
    {
        proof {
            assert(views(list@)[k as int] == list@[k as int]@);
        }
        if str_eq(list[k].as_str(), t.as_str()) {
            proof {
                assert(views(list@)[k as int] == t@);
            }
            return true;
        }
        k += 1;
    }
    proof {
        if views(list@).contains(t@) {
            let x = choose|x: int| 0 <= x < views(list@).len() && views(list@)[x] == t@;
            assert(views(list@)[x] != t@);
        }
    }
    false
}

/// `prefix`, the separator, then `leaf`: one descent step of a topic name.
pub fn join_step(prefix: &String, leaf: &String) -> (r: String)
    ensures
        r@ == prefix@ + seq!['/'] + leaf@,
{
    let mut r = prefix.clone();
    r.append("/");
    r.append(leaf.as_str());
    proof {
        reveal_strlit("/");
        assert(r@ =~= prefix@ + seq!['/'] + leaf@);
    }
    r
}

} // verus!

//! Character-level string operations and their specifications.
//!
//! Every path, group and file-name manipulation in the crate is built
//! from these primitives, each proved against a spec function over
//! `Seq<char>`.

use vstd::prelude::*;

verus! {

use vstd::string::StrSliceExecFns;
use vstd::string::StringExecFns;

/// Relies on `String::push`: appends exactly the one character to the end.
pub assume_specification[ String::push ](s: &mut String, ch: char)
    ensures
        final(s)@ == old(s)@.push(ch),
;

/// `s` with every occurrence of `from` replaced by `to`.
pub open spec fn replace_char(s: Seq<char>, from: char, to: char) -> Seq<char> {
    Seq::new(s.len(), |i: int| if s[i] == from { to } else { s[i] })
}

/// True when `pre` is a prefix of `s`.
pub open spec fn is_prefix_of(pre: Seq<char>, s: Seq<char>) -> bool {
    pre.len() <= s.len() && s.subrange(0, pre.len() as int) == pre
}

/// True when `suf` is a suffix of `s`.
pub open spec fn is_suffix_of(suf: Seq<char>, s: Seq<char>) -> bool {
    suf.len() <= s.len() && s.subrange(s.len() - suf.len(), s.len() as int) == suf
}

/// True when `sub` occurs in `s` starting at index `i`.
pub open spec fn occurs_at(s: Seq<char>, sub: Seq<char>, i: int) -> bool {
    0 <= i && i + sub.len() <= s.len() && s.subrange(i, i + sub.len()) == sub
}

/// True when `sub` occurs somewhere in `s`.
pub open spec fn contains_substr(s: Seq<char>, sub: Seq<char>) -> bool {
    exists|i: int| occurs_at(s, sub, i)
}

/// The segments of `s` split at `sep`; there is always at least one
/// segment, and consecutive separators yield empty segments.
pub open spec fn split_seq(s: Seq<char>, sep: char) -> Seq<Seq<char>>
    decreases s.len(),
{
    if s.len() == 0 {
        seq![s]
    } else if s.last() == sep {
        split_seq(s.drop_last(), sep).push(Seq::empty())
    } else {
        let p = split_seq(s.drop_last(), sep);
        p.update(p.len() - 1, p.last().push(s.last()))
    }
}

/// `parts` joined with `sep` between consecutive segments.
pub open spec fn join_seq(parts: Seq<Seq<char>>, sep: char) -> Seq<char>
    decreases parts.len(),
{
    if parts.len() == 0 {
        Seq::empty()
    } else if parts.len() == 1 {
        parts[0]
    } else {
        join_seq(parts.drop_last(), sep) + seq![sep] + parts.last()
    }
}

/// Index of the last occurrence of `ch` in `s`, if any.
pub open spec fn find_last(s: Seq<char>, ch: char) -> Option<int>
    decreases s.len(),
{
    if s.len() == 0 {
        None
    } else if s.last() == ch {
        Some(s.len() - 1)
    } else {
        find_last(s.drop_last(), ch)
    }
}

pub proof fn lemma_split_len(s: Seq<char>, sep: char)
    ensures
        split_seq(s, sep).len() >= 1,
    decreases s.len(),
{
    if s.len() > 0 {
        lemma_split_len(s.drop_last(), sep);
    }
}

/// Splitting distributes over a separator: the segments of
/// `a + [sep] + b` are the segments of `a` followed by those of `b`.
pub proof fn lemma_split_concat(a: Seq<char>, b: Seq<char>, sep: char)
    ensures
        split_seq(a + seq![sep] + b, sep) == split_seq(a, sep) + split_seq(b, sep),
    decreases b.len(),
{
    lemma_split_len(a, sep);
    lemma_split_len(b, sep);
    if b.len() == 0 {
        let s = a + seq![sep] + b;
        assert(s.drop_last() =~= a);
        assert(split_seq(s, sep) == split_seq(a, sep).push(Seq::empty()));
        assert(b =~= Seq::<char>::empty());
        assert(split_seq(b, sep) == seq![b]);
        assert(split_seq(a, sep).push(Seq::empty()) =~= split_seq(a, sep) + split_seq(b, sep));
    } else {
        lemma_split_concat(a, b.drop_last(), sep);
        lemma_split_len(b.drop_last(), sep);
        let s = a + seq![sep] + b;
        assert(s.drop_last() =~= a + seq![sep] + b.drop_last());
        assert(s.last() == b.last());
        let pa = split_seq(a, sep);
        let pb = split_seq(b.drop_last(), sep);
        if b.last() == sep {
            assert(split_seq(s, sep) == (pa + pb).push(Seq::empty()));
            assert(split_seq(b, sep) == pb.push(Seq::empty()));
            assert((pa + pb).push(Seq::empty()) =~= pa + pb.push(Seq::empty()));
        } else {
            assert(split_seq(s, sep) == (pa + pb).update(pa.len() + pb.len() - 1,
                (pa + pb).last().push(b.last())));
            assert((pa + pb).last() == pb.last());
            assert(split_seq(b, sep) == pb.update(pb.len() - 1, pb.last().push(b.last())));
            assert((pa + pb).update(pa.len() + pb.len() - 1, pb.last().push(b.last()))
                =~= pa + pb.update(pb.len() - 1, pb.last().push(b.last())));
        }
    }
}

/// A string free of the separator is one single segment.
pub proof fn lemma_split_no_sep(s: Seq<char>, sep: char)
    requires
        !s.contains(sep),
    ensures
        split_seq(s, sep) == seq![s],
    decreases s.len(),
{
    if s.len() == 0 {
    } else {
        assert(s[s.len() - 1] != sep);
        assert(!s.drop_last().contains(sep)) by {
            assert(forall|i: int| 0 <= i < s.drop_last().len() ==> s.drop_last()[i] == s[i]);
        }
        lemma_split_no_sep(s.drop_last(), sep);
        assert(split_seq(s, sep) == seq![s.drop_last()].update(0, s.drop_last().push(s.last())));
        assert(s.drop_last().push(s.last()) =~= s);
        assert(seq![s.drop_last()].update(0, s.drop_last().push(s.last())) =~= seq![s]);
    }
}

/// Joining the segments of `s` with `to` rewrites each separator and
/// keeps every other character.
pub proof fn lemma_join_split(s: Seq<char>, sep: char, to: char)
    ensures
        join_seq(split_seq(s, sep), to) == replace_char(s, sep, to),
    decreases s.len(),
{
    lemma_split_len(s, sep);
    if s.len() == 0 {
        assert(join_seq(split_seq(s, sep), to) =~= replace_char(s, sep, to));
    } else {
        lemma_join_split(s.drop_last(), sep, to);
        lemma_split_len(s.drop_last(), sep);
        let p = split_seq(s.drop_last(), sep);
        if s.last() == sep {
            assert(split_seq(s, sep) == p.push(Seq::empty()));
            assert(p.push(Seq::empty()).drop_last() =~= p);
            assert(join_seq(p.push(Seq::empty()), to)
                == join_seq(p, to) + seq![to] + Seq::<char>::empty());
            assert(join_seq(p, to) + seq![to] + Seq::<char>::empty()
                =~= replace_char(s, sep, to));
        } else {
            let q = p.update(p.len() - 1, p.last().push(s.last()));
            assert(split_seq(s, sep) == q);
            if p.len() == 1 {
                assert(join_seq(q, to) == q[0]);
                assert(q[0] == p[0].push(s.last()));
                assert(join_seq(p, to) == p[0]);
                assert(p[0].push(s.last()) =~= replace_char(s, sep, to));
            } else {
                assert(q.drop_last() =~= p.drop_last());
                assert(join_seq(q, to) == join_seq(p.drop_last(), to) + seq![to] + q.last());
                assert(q.last() == p.last().push(s.last()));
                assert(join_seq(p, to) == join_seq(p.drop_last(), to) + seq![to] + p.last());
                assert(replace_char(s, sep, to)
                    =~= replace_char(s.drop_last(), sep, to).push(s.last()));
                assert(join_seq(p.drop_last(), to) + seq![to] + p.last().push(s.last())
                    =~= (join_seq(p.drop_last(), to) + seq![to] + p.last()).push(s.last()));
            }
        }
    }
}

pub fn split_exec(s: &str, sep: char) -> (parts: Vec<String>)
    ensures
        parts.deep_view() == split_seq(s@, sep),
{
    let n = s.unicode_len();
    let mut parts: Vec<String> = Vec::new();
    let mut cur = String::new();
    let mut i: usize = 0;
    proof {
        assert(s@.subrange(0, 0) =~= Seq::<char>::empty());
        assert(split_seq(s@.subrange(0, 0), sep) == seq![s@.subrange(0, 0)]);
        assert(parts.deep_view().push(cur@) =~= seq![s@.subrange(0, 0)]);
    }
    while i < n
        invariant
            n == s@.len(),
            i <= n,
            parts.deep_view().push(cur@) == split_seq(s@.subrange(0, i as int), sep),
        decreases n - i,
    {
        let c = s.get_char(i);
        proof {
            assert(s@.subrange(0, i + 1).drop_last() =~= s@.subrange(0, i as int));
            assert(s@.subrange(0, i + 1).last() == s@[i as int]);
        }
        if c == sep {
            let ghost old_parts = parts.deep_view();
            let ghost old_cur = cur@;
            parts.push(cur);
            cur = String::new();
            proof {
                assert(parts.deep_view() =~= old_parts.push(old_cur));
                assert(parts.deep_view().push(cur@)
                    =~= old_parts.push(old_cur).push(Seq::<char>::empty()));
            }
        } else {
            let ghost old_parts = parts.deep_view();
            let ghost old_cur = cur@;
            cur.push(c);
            proof {
                let p = old_parts.push(old_cur);
                assert(p.update(p.len() - 1, p.last().push(c)) =~= old_parts.push(old_cur.push(c)));
            }
        }
        i = i + 1;
    }
    proof {
        assert(s@.subrange(0, n as int) =~= s@);
    }
    let ghost old_parts = parts.deep_view();
    let ghost old_cur = cur@;
    parts.push(cur);
    proof {
        assert(parts.deep_view() =~= old_parts.push(old_cur));
    }
    parts
}

/// Joins the first `k` elements of `parts` with `sep`.
pub fn join_upto(parts: &Vec<String>, k: usize, sep: char) -> (r: String)
    requires
        k <= parts@.len(),
    ensures
        r@ == join_seq(parts.deep_view().subrange(0, k as int), sep),
{
    let mut r = String::new();
    let mut i: usize = 0;
    while i < k
        invariant
            k <= parts@.len(),
            i <= k,
            r@ == join_seq(parts.deep_view().subrange(0, i as int), sep),
        decreases k - i,
    {
        let ghost deep = parts.deep_view();
        proof {
            assert(deep.subrange(0, i + 1).drop_last() =~= deep.subrange(0, i as int));
            assert(deep.subrange(0, i + 1).last() == deep[i as int]);
        }
        if i > 0 {
            r.push(sep);
        }
        r.append(parts[i].as_str());
        proof {
            if i == 0 {
                assert(r@ =~= join_seq(deep.subrange(0, 1), sep));
            }
        }
        i = i + 1;
    }
    r
}

/// A found index is in range, carries the character, and is the last
/// such position.
pub proof fn lemma_find_last_some(s: Seq<char>, ch: char, i: int)
    requires
        find_last(s, ch) == Some(i),
    ensures
        0 <= i < s.len(),
        s[i] == ch,
        forall|j: int| i < j < s.len() ==> s[j] != ch,
    decreases s.len(),
{
    if s.len() > 0 && s.last() != ch {
        lemma_find_last_some(s.drop_last(), ch, i);
        assert(forall|j: int| 0 <= j < s.len() - 1 ==> s[j] == s.drop_last()[j]);
    }
}

/// A sequence free of `x` stays free of it under concatenation.
pub proof fn lemma_not_contains_concat(a: Seq<char>, b: Seq<char>, x: char)
    requires
        !a.contains(x),
        !b.contains(x),
    ensures
        !(a + b).contains(x),
{
    if (a + b).contains(x) {
        let i = choose|i: int| 0 <= i < (a + b).len() && (a + b)[i] == x;
        if i < a.len() {
            assert(a[i] == x);
            assert(a.contains(x));
        } else {
            assert(b[i - a.len()] == x);
            assert(b.contains(x));
        }
    }
}

/// A single character other than `x` does not contain `x`.
pub proof fn lemma_not_contains_single(c: char, x: char)
    requires
        c != x,
    ensures
        !seq![c].contains(x),
{
    if seq![c].contains(x) {
        let i = choose|i: int| 0 <= i < seq![c].len() && seq![c][i] == x;
        assert(seq![c][0] == c);
    }
}

/// Replacing `from` by `to` cannot introduce a third character.
pub proof fn lemma_replace_not_contains(s: Seq<char>, from: char, to: char, x: char)
    requires
        x != to,
        x != from,
        !s.contains(x),
    ensures
        !replace_char(s, from, to).contains(x),
{
    let r = replace_char(s, from, to);
    if r.contains(x) {
        let i = choose|i: int| 0 <= i < r.len() && r[i] == x;
        assert(s[i] == x);
        assert(s.contains(x));
    }
}

/// Replacing a character that does not occur changes nothing.
pub proof fn lemma_replace_id(s: Seq<char>, from: char, to: char)
    requires
        !s.contains(from),
    ensures
        replace_char(s, from, to) == s,
{
    assert forall|i: int| 0 <= i < s.len() implies s[i] != from by {
        if s[i] == from {
            assert(s.contains(from));
        }
    }
    assert(replace_char(s, from, to) =~= s);
}

/// The last `ch` of `x + [ch] + t` is the separator when `t` is free
/// of `ch`.
pub proof fn lemma_find_last_sep(x: Seq<char>, t: Seq<char>, ch: char)
    requires
        !t.contains(ch),
    ensures
        find_last(x + seq![ch] + t, ch) == Some(x.len() as int),
    decreases t.len(),
{
    let s = x + seq![ch] + t;
    if t.len() == 0 {
        assert(s.last() == ch);
    } else {
        assert(s.last() == t.last());
        assert(t.last() != ch) by {
            if t.last() == ch {
                assert(t.contains(ch));
            }
        }
        assert(!t.drop_last().contains(ch)) by {
            if t.drop_last().contains(ch) {
                let i = choose|i: int|
                    0 <= i < t.drop_last().len() && t.drop_last()[i] == ch;
                assert(t[i] == ch);
                assert(t.contains(ch));
            }
        }
        assert(s.drop_last() =~= x + seq![ch] + t.drop_last());
        lemma_find_last_sep(x, t.drop_last(), ch);
    }
}

pub fn find_last_exec(s: &str, ch: char) -> (r: Option<usize>)
    ensures
        match r {
            Some(i) => find_last(s@, ch) == Some(i as int) && i < s@.len(),
            None => find_last(s@, ch) is None,
        },
{
    let n = s.unicode_len();
    let mut j: usize = n;
    proof {
        assert(s@.subrange(0, n as int) =~= s@);
    }
    while j > 0
        invariant
            n == s@.len(),
            j <= n,
            find_last(s@, ch) == find_last(s@.subrange(0, j as int), ch),
        decreases j,
    {
        proof {
            assert(s@.subrange(0, j as int).drop_last() =~= s@.subrange(0, j - 1));
            assert(s@.subrange(0, j as int).last() == s@[j - 1]);
        }
        if s.get_char(j - 1) == ch {
            return Some(j - 1);
        }
        j = j - 1;
    }
    None
}

pub fn replace_char_exec(s: &str, from: char, to: char) -> (r: String)
    ensures
        r@ == replace_char(s@, from, to),
{
    let n = s.unicode_len();
    let mut r = String::new();
    let mut i: usize = 0;
    while i < n
        invariant
            n == s@.len(),
            i <= n,
            r@ == replace_char(s@, from, to).subrange(0, i as int),
        decreases n - i,
    {
        let c = s.get_char(i);
        if c == from {
            r.push(to);
        } else {
            r.push(c);
        }
        proof {
            assert(r@ =~= replace_char(s@, from, to).subrange(0, i + 1));
        }
        i = i + 1;
    }
    proof {
        assert(r@ =~= replace_char(s@, from, to));
    }
    r
}

pub fn starts_with_exec(s: &str, pre: &str) -> (b: bool)
    ensures
        b == is_prefix_of(pre@, s@),
{
    let n = s.unicode_len();
    let m = pre.unicode_len();
    if m > n {
        proof {
            assert(!is_prefix_of(pre@, s@));
        }
        return false;
    }
    let mut i: usize = 0;
    while i < m
        invariant
            n == s@.len(),
            m == pre@.len(),
            m <= n,
            i <= m,
            forall|j: int| 0 <= j < i ==> s@[j] == pre@[j],
        decreases m - i,
    {
        if s.get_char(i) != pre.get_char(i) {
            proof {
                assert(s@.subrange(0, pre@.len() as int)[i as int] != pre@[i as int]);
            }
            return false;
        }
        i = i + 1;
    }
    proof {
        assert(s@.subrange(0, pre@.len() as int) =~= pre@);
    }
    true
}

pub fn ends_with_exec(s: &str, suf: &str) -> (b: bool)
    ensures
        b == is_suffix_of(suf@, s@),
{
    let n = s.unicode_len();
    let m = suf.unicode_len();
    if m > n {
        proof {
            assert(!is_suffix_of(suf@, s@));
        }
        return false;
    }
    let mut i: usize = 0;
    while i < m
        invariant
            n == s@.len(),
            m == suf@.len(),
            m <= n,
            i <= m,
            forall|j: int| 0 <= j < i ==> s@[n - m + j] == suf@[j],
        decreases m - i,
    {
        if s.get_char(n - m + i) != suf.get_char(i) {
            proof {
                assert(s@.subrange(s@.len() - suf@.len(), s@.len() as int)[i as int] != suf@[i as int]);
            }
            return false;
        }
        i = i + 1;
    }
    proof {
        assert(s@.subrange(s@.len() - suf@.len(), s@.len() as int) =~= suf@);
    }
    true
}

pub fn str_eq(a: &str, b: &str) -> (r: bool)
    ensures
        r == (a@ == b@),
{
    let n = a.unicode_len();
    let m = b.unicode_len();
    if n != m {
        return false;
    }
    let mut i: usize = 0;
    while i < n
        invariant
            n == a@.len(),
            n == b@.len(),
            i <= n,
            forall|j: int| 0 <= j < i ==> a@[j] == b@[j],
        decreases n - i,
    {
        if a.get_char(i) != b.get_char(i) {
            return false;
        }
        i = i + 1;
    }
    proof {
        assert(a@ =~= b@);
    }
    true
}

/// True iff `sub` occurs at position `i` of `s`; a bounded equality check.
fn occurs_at_exec(s: &str, sub: &str, i: usize) -> (b: bool)
    requires
        i + sub@.len() <= s@.len(),
    ensures
        b == occurs_at(s@, sub@, i as int),
{
    let n = s.unicode_len();
    let m = sub.unicode_len();
    let mut j: usize = 0;
    while j < m
        invariant
            n == s@.len(),
            m == sub@.len(),
            i + m <= n,
            j <= m,
            forall|k: int| 0 <= k < j ==> s@[i + k] == sub@[k],
        decreases m - j,
    {
        if s.get_char(i + j) != sub.get_char(j) {
            proof {
                assert(s@.subrange(i as int, i + sub@.len())[j as int] != sub@[j as int]);
            }
            return false;
        }
        j = j + 1;
    }
    proof {
        assert(s@.subrange(i as int, i + sub@.len()) =~= sub@);
    }
    true
}

pub fn contains_exec(s: &str, sub: &str) -> (b: bool)
    ensures
        b == contains_substr(s@, sub@),
{
    let n = s.unicode_len();
    let m = sub.unicode_len();
    if m > n {
        proof {
            assert(forall|i: int| !occurs_at(s@, sub@, i));
        }
        return false;
    }
    if m == 0 {
        proof {
            assert(s@.subrange(0, 0) =~= sub@);
            assert(occurs_at(s@, sub@, 0));
        }
        return true;
    }
    let mut i: usize = 0;
    while i <= n - m
        invariant
            n == s@.len(),
            m == sub@.len(),
            0 < m <= n,
            i <= n - m + 1,
            forall|k: int| 0 <= k < i ==> !occurs_at(s@, sub@, k),
        decreases n - i,
    {
        if occurs_at_exec(s, sub, i) {
            return true;
        }
        i = i + 1;
    }
    proof {
        assert(forall|k: int| occurs_at(s@, sub@, k) ==> 0 <= k <= s@.len() - sub@.len());
    }
    false
}

} // verus!

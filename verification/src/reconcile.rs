//! Deciding which local coordinates are missing remotely, and putting
//! the missing entries into a deterministic order.
//!
//! The remote probes themselves are network I/O and live with the
//! caller; this module computes the probe URL for each coordinate and
//! folds the probe outcomes into the missing list.

use vstd::prelude::*;

verus! {

use vstd::string::StrSliceExecFns;
use vstd::string::StringExecFns;
use crate::dependency::Dependency;
use crate::dependency::DepModel;
use crate::dependency::url_path_of;

/// Lexicographic character order: `a` at or before `b`.
pub open spec fn lex_le(a: Seq<char>, b: Seq<char>) -> bool
    decreases a.len(),
{
    if a.len() == 0 {
        true
    } else if b.len() == 0 {
        false
    } else if (a[0] as int) < (b[0] as int) {
        true
    } else if (a[0] as int) > (b[0] as int) {
        false
    } else {
        lex_le(a.skip(1), b.skip(1))
    }
}

/// Dropping a common prefix does not change the order.
pub proof fn lemma_lex_le_skip(a: Seq<char>, b: Seq<char>, i: int)
    requires
        0 <= i <= a.len(),
        i <= b.len(),
        forall|j: int| 0 <= j < i ==> a[j] == b[j],
    ensures
        lex_le(a, b) == lex_le(a.skip(i), b.skip(i)),
    decreases i,
{
    if i > 0 {
        lemma_lex_le_skip(a.skip(1), b.skip(1), i - 1);
        assert(a.skip(1).skip(i - 1) =~= a.skip(i));
        assert(b.skip(1).skip(i - 1) =~= b.skip(i));
        assert(forall|j: int| 0 <= j < i - 1 ==> a.skip(1)[j] == b.skip(1)[j]);
    } else {
        assert(a.skip(0) =~= a);
        assert(b.skip(0) =~= b);
    }
}

/// The order is reflexive.
pub proof fn lemma_lex_le_refl(a: Seq<char>)
    ensures
        lex_le(a, a),
    decreases a.len(),
{
    if a.len() > 0 {
        lemma_lex_le_refl(a.skip(1));
    }
}

/// The order is total.
pub proof fn lemma_lex_le_total(a: Seq<char>, b: Seq<char>)
    ensures
        lex_le(a, b) || lex_le(b, a),
    decreases a.len(),
{
    if a.len() > 0 && b.len() > 0 && a[0] == b[0] {
        lemma_lex_le_total(a.skip(1), b.skip(1));
    }
}

/// The order is transitive.
pub proof fn lemma_lex_le_trans(a: Seq<char>, b: Seq<char>, c: Seq<char>)
    requires
        lex_le(a, b),
        lex_le(b, c),
    ensures
        lex_le(a, c),
    decreases a.len(),
{
    if a.len() > 0 && b.len() > 0 && c.len() > 0 && a[0] == b[0] && b[0] == c[0] {
        lemma_lex_le_trans(a.skip(1), b.skip(1), c.skip(1));
    }
}

/// Compares two strings in lexicographic character order.
pub fn str_le(a: &str, b: &str) -> (r: bool)
    ensures
        r == lex_le(a@, b@),
{
    let n = a.unicode_len();
    let m = b.unicode_len();
    let mut i: usize = 0;
    while i < n && i < m
        invariant
            n == a@.len(),
            m == b@.len(),
            i <= n,
            i <= m,
            forall|j: int| 0 <= j < i ==> a@[j] == b@[j],
        decreases n - i,
    {
        let ca = a.get_char(i);
        let cb = b.get_char(i);
        if ca != cb {
            proof {
                lemma_lex_le_skip(a@, b@, i as int);
            }
            return (ca as u32) < (cb as u32);
        }
        i = i + 1;
    }
    proof {
        lemma_lex_le_skip(a@, b@, i as int);
    }
    n <= m
}

/// True when the sequence is sorted in lexicographic order.
pub open spec fn sorted_lex(s: Seq<Seq<char>>) -> bool {
    forall|i: int, j: int| 0 <= i < j < s.len() ==> lex_le(s[i], s[j])
}

/// Sorts path strings lexicographically; the result holds exactly the
/// input strings. Deterministic archive contents depend on this order.
pub fn sort_paths(paths: Vec<String>) -> (r: Vec<String>)
    ensures
        sorted_lex(r.deep_view()),
        r.deep_view().to_multiset() == paths.deep_view().to_multiset(),
{
    broadcast use vstd::seq_lib::group_to_multiset_ensures;
    broadcast use vstd::multiset::group_multiset_axioms;

    let ghost orig = paths.deep_view();
    let mut rem = paths;
    let mut out: Vec<String> = Vec::new();
    proof {
        assert(out.deep_view() =~= Seq::<Seq<char>>::empty());
        assert(out.deep_view().to_multiset().add(rem.deep_view().to_multiset())
            =~= orig.to_multiset());
    }
    while rem.len() > 0
        invariant
            sorted_lex(out.deep_view()),
            forall|i: int, j: int|
                0 <= i < out.deep_view().len() && 0 <= j < rem.deep_view().len() ==> lex_le(
                    out.deep_view()[i],
                    rem.deep_view()[j],
                ),
            out.deep_view().to_multiset().add(rem.deep_view().to_multiset())
                == orig.to_multiset(),
        decreases rem.len(),
    {
        let n = rem.len();
        let mut min_i: usize = 0;
        let mut j: usize = 1;
        proof {
            lemma_lex_le_refl(rem.deep_view()[0]);
        }
        while j < n
            invariant
                n == rem@.len(),
                min_i < j,
                j <= n,
                forall|k: int| 0 <= k < j ==> lex_le(rem.deep_view()[min_i as int], rem.deep_view()[k]),
            decreases n - j,
        {
            let ghost dv = rem.deep_view();
            if !str_le(rem[min_i].as_str(), rem[j].as_str()) {
                proof {
                    lemma_lex_le_total(dv[min_i as int], dv[j as int]);
                    assert forall|k: int| 0 <= k < j + 1 implies lex_le(dv[j as int], dv[k]) by {
                        if k < j {
                            lemma_lex_le_trans(dv[j as int], dv[min_i as int], dv[k]);
                        } else {
                            lemma_lex_le_refl(dv[j as int]);
                        }
                    }
                }
                min_i = j;
            }
            j = j + 1;
        }
        let ghost before_rem = rem.deep_view();
        let ghost before_out = out.deep_view();
        let m = rem.remove(min_i);
        out.push(m);
        proof {
            assert(rem.deep_view() =~= before_rem.remove(min_i as int));
            assert(out.deep_view() =~= before_out.push(m@));
            assert(m@ == before_rem[min_i as int]);
            assert forall|i: int, j2: int|
                0 <= i < out.deep_view().len() && 0 <= j2 < rem.deep_view().len() implies lex_le(
                out.deep_view()[i],
                rem.deep_view()[j2],
            ) by {
                let x = rem.deep_view()[j2];
                assert(before_rem.remove(min_i as int)[j2] == if j2 < min_i {
                    before_rem[j2]
                } else {
                    before_rem[j2 + 1]
                });
                assert(before_rem.contains(x)) by {
                    if j2 < min_i {
                        assert(before_rem[j2] == x);
                    } else {
                        assert(before_rem[j2 + 1] == x);
                    }
                }
            }
            assert(before_rem.contains(m@)) by {
                assert(before_rem[min_i as int] == m@);
            }
            assert(before_rem.len() == n);
            vstd::seq_lib::to_multiset_remove(before_rem, min_i as int);
            vstd::seq_lib::to_multiset_build(before_out, m@);
            assert(rem.deep_view().to_multiset() == before_rem.to_multiset().remove(m@));
            assert(out.deep_view().to_multiset() == before_out.to_multiset().insert(m@));
            vstd::seq_lib::to_multiset_contains(before_rem, m@);
            assert(before_rem.to_multiset().count(m@) > 0);
            assert(out.deep_view().to_multiset().add(rem.deep_view().to_multiset())
                =~= orig.to_multiset());
        }
    }
    proof {
        assert(rem.deep_view() =~= Seq::<Seq<char>>::empty());
        assert(out.deep_view().to_multiset() =~= orig.to_multiset());
    }
    out
}

/// The coordinates whose probe reported absence, in input order.
pub open spec fn missing_of(deps: Seq<DepModel>, present: Seq<bool>) -> Seq<DepModel>
    decreases deps.len(),
{
    if deps.len() == 0 {
        Seq::empty()
    } else {
        let rest = missing_of(deps.drop_last(), present.drop_last());
        if !present.last() {
            rest.push(deps.last())
        } else {
            rest
        }
    }
}

/// The missing list holds exactly the coordinates whose probe said
/// "absent": membership depends only on the coordinates and the probe
/// outcomes, never on probe order.
pub proof fn lemma_missing_exact(deps: Seq<DepModel>, present: Seq<bool>)
    requires
        deps.len() == present.len(),
    ensures
        forall|x: DepModel|
            missing_of(deps, present).contains(x) <==> exists|i: int|
                0 <= i < deps.len() && deps[i] == x && !present[i],
    decreases deps.len(),
{
    if deps.len() > 0 {
        lemma_missing_exact(deps.drop_last(), present.drop_last());
        let rest = missing_of(deps.drop_last(), present.drop_last());
        let all = missing_of(deps, present);
        assert forall|x: DepModel| missing_of(deps, present).contains(x) implies exists|i: int|
            0 <= i < deps.len() && deps[i] == x && !present[i] by {
            let k = choose|k: int| 0 <= k < all.len() && all[k] == x;
            if !present.last() && k == all.len() - 1 {
                assert(deps[deps.len() - 1] == x && !present[deps.len() - 1]);
            } else {
                assert(rest.contains(x));
                let i = choose|i: int|
                    0 <= i < deps.drop_last().len() && deps.drop_last()[i] == x
                        && !present.drop_last()[i];
                assert(deps[i] == x && !present[i]);
            }
        }
        assert forall|x: DepModel|
            (exists|i: int| 0 <= i < deps.len() && deps[i] == x && !present[i]) implies missing_of(
            deps,
            present,
        ).contains(x) by {
            let i = choose|i: int| 0 <= i < deps.len() && deps[i] == x && !present[i];
            if i == deps.len() - 1 {
                assert(all[all.len() - 1] == x);
            } else {
                assert(deps.drop_last()[i] == x && !present.drop_last()[i]);
                assert(rest.contains(x));
                let k = choose|k: int| 0 <= k < rest.len() && rest[k] == x;
                assert(all[k] == x);
            }
        }
    }
}

/// Keeps exactly the coordinates whose presence flag is false, in
/// input order; `present[i]` is the probe outcome for `deps[i]`.
pub fn find_missing(deps: Vec<Dependency>, present: &Vec<bool>) -> (missing: Vec<Dependency>)
    requires
        deps@.len() == present@.len(),
    ensures
        missing.deep_view() == missing_of(deps.deep_view(), present@),
{
    let ghost all = deps.deep_view();
    let ghost flags = present@;
    let n = deps.len();
    let mut rem = deps;
    let mut missing: Vec<Dependency> = Vec::new();
    let mut i: usize = 0;
    proof {
        assert(all.subrange(0, 0) =~= Seq::<DepModel>::empty());
        assert(missing.deep_view() =~= missing_of(all.subrange(0, 0), flags.subrange(0, 0)));
    }
    while i < n
        invariant
            n == all.len(),
            n == flags.len(),
            flags == present@,
            i <= n,
            rem@.len() == n - i,
            rem.deep_view() == all.subrange(i as int, n as int),
            missing.deep_view() == missing_of(all.subrange(0, i as int), flags.subrange(0, i as int)),
        decreases n - i,
    {
        proof {
            assert(all.subrange(0, i + 1).drop_last() =~= all.subrange(0, i as int));
            assert(flags.subrange(0, i + 1).drop_last() =~= flags.subrange(0, i as int));
            assert(all.subrange(0, i + 1).last() == all[i as int]);
            assert(flags.subrange(0, i + 1).last() == flags[i as int]);
            assert(rem.deep_view()[0] == all[i as int]);
        }
        let ghost before_rem = rem.deep_view();
        let ghost before_missing = missing.deep_view();
        let d = rem.remove(0);
        proof {
            assert(rem.deep_view() =~= before_rem.remove(0));
            assert(rem.deep_view() =~= all.subrange(i + 1, n as int));
        }
        if !present[i] {
            missing.push(d);
            proof {
                assert(missing.deep_view() =~= before_missing.push(d@));
            }
        }
        i = i + 1;
    }
    proof {
        assert(all.subrange(0, n as int) =~= all);
        assert(flags.subrange(0, n as int) =~= flags);
    }
    missing
}

/// The URL probed for one coordinate: the remote base, a slash, and
/// the coordinate's remote path.
pub fn probe_url(remote_url: &str, dep: &Dependency) -> (r: String)
    ensures
        r@ == remote_url@ + seq!['/'] + url_path_of(dep@),
{
    let mut r = remote_url.to_owned();
    r.push('/');
    let p = dep.to_url_path();
    r.append(p.as_str());
    r
}

} // verus!

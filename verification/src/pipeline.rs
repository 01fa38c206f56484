//! The filter/sort/aggregate pipeline: drops forked repositories, applies an
//! optional case-insensitive language filter, sorts by a selectable key,
//! truncates to a display limit, and computes the summary statistics over the
//! full filtered set.

use vstd::prelude::*;
use vstd::multiset::Multiset;
use vstd::multiset::group_multiset_axioms;
use vstd::seq_lib::group_to_multiset_ensures;
use vstd::seq_lib::lemma_multiset_commutative;
use crate::repo::Repo;
use crate::text::{lex_le, lower_of, lowercase, str_lex_le, lemma_lex_le_total, lemma_lex_le_trans};

verus! {

/// Whether a record's language, compared case-insensitively, equals the
/// already-folded filter `fold`.
pub open spec fn lang_matches(r: Repo, fold: Seq<char>) -> bool {
    match r.language {
        Some(l) => lower_of(l@) == fold,
        None => false,
    }
}

/// The sum of the star counts of a record sequence.
pub open spec fn total_of(s: Seq<Repo>) -> int
    decreases s.len(),
{
    if s.len() == 0 {
        0
    } else {
        total_of(s.drop_last()) + s.last().stargazers_count
    }
}

/// Star counts are non-increasing along the sequence.
pub open spec fn sorted_by_stars_desc(s: Seq<Repo>) -> bool {
    forall|i: int, j: int| 0 <= i < j < s.len() ==> s[i].stargazers_count >= s[j].stargazers_count
}

/// Case-folded names are non-decreasing along the sequence.
pub open spec fn sorted_by_name_asc(s: Seq<Repo>) -> bool {
    forall|i: int, j: int|
        0 <= i < j < s.len() ==> lex_le(lower_of(s[i].name@), lower_of(s[j].name@))
}

/// Removes every forked repository and nothing else, keeping order.
pub fn filter_forks(repos: &Vec<Repo>) -> (out: Vec<Repo>)
    ensures
        out@ == repos@.filter(|r: Repo| !r.fork),
{
    let mut out: Vec<Repo> = Vec::new();
    let mut i: usize = 0;
    while i < repos.len()
        invariant
            0 <= i <= repos@.len(),
            out@ == repos@.take(i as int).filter(|r: Repo| !r.fork),
        decreases repos@.len() - i,
    {
        if !repos[i].fork {
            out.push(repos[i].clone());
        }
        proof {
            reveal_with_fuel(Seq::<_>::filter, 2);
            let t1 = repos@.take(i + 1);
            assert(t1.drop_last() =~= repos@.take(i as int));
            assert(t1.last() == repos@[i as int]);
            assert(out@ == t1.filter(|r: Repo| !r.fork));
        }
        i = i + 1;
    }
    proof {
        assert(repos@.take(repos@.len() as int) =~= repos@);
    }
    out
}

/// Retains exactly the records whose language case-insensitively equals the
/// filter, keeping order.
pub fn filter_by_language(repos: &Vec<Repo>, lang: &str) -> (out: Vec<Repo>)
    ensures
        out@ == repos@.filter(|r: Repo| lang_matches(r, lower_of(lang@))),
{
    let fold = lowercase(lang);
    let mut out: Vec<Repo> = Vec::new();
    let mut i: usize = 0;
    while i < repos.len()
        invariant
            0 <= i <= repos@.len(),
            fold@ == lower_of(lang@),
            out@ == repos@.take(i as int).filter(|r: Repo| lang_matches(r, lower_of(lang@))),
        decreases repos@.len() - i,
    {
        let keep = match &repos[i].language {
            Some(l) => {
                let ll = lowercase(l.as_str());
                ll == fold
            },
            None => false,
        };
        if keep {
            out.push(repos[i].clone());
        }
        proof {
            reveal_with_fuel(Seq::<_>::filter, 2);
            let t1 = repos@.take(i + 1);
            assert(t1.drop_last() =~= repos@.take(i as int));
            assert(t1.last() == repos@[i as int]);
            assert(keep == lang_matches(repos@[i as int], lower_of(lang@)));
            assert(out@ == t1.filter(|r: Repo| lang_matches(r, lower_of(lang@))));
        }
        i = i + 1;
    }
    proof {
        assert(repos@.take(repos@.len() as int) =~= repos@);
    }
    out
}

/// Truncates the display set to the limit: the first `min(limit, len)`
/// records, in unchanged order.
pub fn truncate_repos(repos: Vec<Repo>, limit: usize) -> (out: Vec<Repo>)
    ensures
        out@ == repos@.take(if limit < repos@.len() {
            limit as int
        } else {
            repos@.len() as int
        }),
        out@.len() == vstd::math::min(limit as int, repos@.len() as int),
{
    let mut v = repos;
    proof {
        assert(v@.take(v@.len() as int) =~= v@);
    }
    v.truncate(limit);
    v
}

/// Inserting an element anywhere adds exactly that element to the multiset.
pub(crate) proof fn lemma_insert_multiset<A>(s: Seq<A>, p: int, x: A)
    requires
        0 <= p <= s.len(),
    ensures
        s.insert(p, x).to_multiset() =~= s.to_multiset().insert(x),
{
    broadcast use group_to_multiset_ensures, group_multiset_axioms;

    let pre = s.take(p);
    let post = s.skip(p);
    assert(s =~= pre + post);
    assert(s.insert(p, x) =~= pre + (seq![x] + post));
    lemma_multiset_commutative(pre, post);
    lemma_multiset_commutative(pre, seq![x] + post);
    lemma_multiset_commutative(seq![x], post);
    assert(seq![x] =~= Seq::empty().push(x));
    assert(Seq::<A>::empty().to_multiset() =~= Multiset::empty());
    assert(seq![x].to_multiset() =~= Multiset::empty().insert(x));
    assert(s.insert(p, x).to_multiset() =~= s.to_multiset().insert(x));
}

/// Removing the element at any index subtracts exactly its stars.
proof fn lemma_total_remove(s: Seq<Repo>, i: int)
    requires
        0 <= i < s.len(),
    ensures
        total_of(s.remove(i)) == total_of(s) - s[i].stargazers_count,
    decreases s.len(),
{
    if i == s.len() - 1 {
        assert(s.remove(i) =~= s.drop_last());
    } else {
        assert(s.remove(i).drop_last() =~= s.drop_last().remove(i));
        assert(s.remove(i).last() == s.last());
        lemma_total_remove(s.drop_last(), i);
    }
}

/// The total star count depends only on which records are present, not on
/// their order: any two rearrangements of the same records report the same
/// total. In particular the total over the filtered set is unchanged by
/// sorting, and is independent of any later truncation of the display set.
pub proof fn lemma_total_stars_permutation(a: Seq<Repo>, b: Seq<Repo>)
    requires
        a.to_multiset() == b.to_multiset(),
    ensures
        total_of(a) == total_of(b),
    decreases a.len(),
{
    broadcast use group_to_multiset_ensures, group_multiset_axioms;

    if a.len() == 0 {
        assert(b.to_multiset().len() == 0);
    } else {
        let x = a.last();
        assert(a.to_multiset().count(x) > 0);
        assert(b.to_multiset().count(x) > 0);
        assert(b.contains(x));
        let j = choose|j: int| 0 <= j < b.len() && b[j] == x;
        let a2 = a.drop_last();
        let b2 = b.remove(j);
        assert(a =~= a2.push(x));
        assert(a2.push(x).to_multiset() =~= a2.to_multiset().insert(x));
        assert(b2.to_multiset() =~= b.to_multiset().remove(x));
        assert(a2.to_multiset() =~= b2.to_multiset()) by {
            assert(a2.to_multiset() =~= a.to_multiset().remove(x));
        }
        lemma_total_stars_permutation(a2, b2);
        lemma_total_remove(b, j);
    }
}

/// Sorts the records by star count, highest first. The result is a
/// rearrangement of the input: nothing is added or dropped, so the total
/// star count is preserved as well.
pub fn sort_by_stars(repos: Vec<Repo>) -> (out: Vec<Repo>)
    ensures
        out@.to_multiset() == repos@.to_multiset(),
        sorted_by_stars_desc(out@),
        out@.len() == repos@.len(),
        total_of(out@) == total_of(repos@),
{
    broadcast use group_to_multiset_ensures, group_multiset_axioms;

    let ghost orig = repos@;
    let mut v = repos;
    let mut out: Vec<Repo> = Vec::new();
    while v.len() > 0
        invariant
            out@.to_multiset().add(v@.to_multiset()) =~= orig.to_multiset(),
            sorted_by_stars_desc(out@),
            out@.len() + v@.len() == orig.len(),
        decreases v@.len(),
    {
        let ghost v_before = v@;
        let x = v.pop().unwrap();
        proof {
            broadcast use group_to_multiset_ensures, group_multiset_axioms;

            assert(v_before =~= v@.push(x));
        }
        let mut p: usize = 0;
        while p < out.len() && out[p].stargazers_count >= x.stargazers_count
            invariant
                0 <= p <= out@.len(),
                forall|j: int|
                    0 <= j < p ==> out@[j].stargazers_count >= x.stargazers_count,
            decreases out@.len() - p,
        {
            p = p + 1;
        }
        let ghost out_before = out@;
        out.insert(p, x);
        proof {
            broadcast use group_to_multiset_ensures, group_multiset_axioms;

            lemma_insert_multiset(out_before, p as int, x);
            assert(v_before =~= v@.push(x));
            assert(v_before.to_multiset() =~= v@.to_multiset().insert(x));
            assert(out@.to_multiset() =~= out_before.to_multiset().insert(x));
            assert(out@.to_multiset().add(v@.to_multiset()) =~= orig.to_multiset());
            assert forall|i: int, j: int| 0 <= i < j < out@.len() implies out@[i].stargazers_count
                >= out@[j].stargazers_count by {
                if j < p {
                } else if i == p {
                    assert(out@[j] == out_before[j - 1]);
                } else if j == p {
                } else if i > p {
                    assert(out@[i] == out_before[i - 1]);
                    assert(out@[j] == out_before[j - 1]);
                } else {
                    assert(out@[j] == out_before[j - 1]);
                }
            }
        }
    }
    proof {
        assert(v@.to_multiset().len() == 0);
        assert(out@.to_multiset() =~= orig.to_multiset());
        lemma_total_stars_permutation(out@, orig);
    }
    out
}

/// Sorts the records by name, ascending and case-insensitive. The result is
/// a rearrangement of the input.
pub fn sort_by_name(repos: Vec<Repo>) -> (out: Vec<Repo>)
    ensures
        out@.to_multiset() == repos@.to_multiset(),
        sorted_by_name_asc(out@),
        out@.len() == repos@.len(),
        total_of(out@) == total_of(repos@),
{
    broadcast use group_to_multiset_ensures, group_multiset_axioms;

    let ghost orig = repos@;
    let mut v = repos;
    let mut out: Vec<Repo> = Vec::new();
    while v.len() > 0
        invariant
            out@.to_multiset().add(v@.to_multiset()) =~= orig.to_multiset(),
            sorted_by_name_asc(out@),
            out@.len() + v@.len() == orig.len(),
        decreases v@.len(),
    {
        let ghost v_before = v@;
        let x = v.pop().unwrap();
        proof {
            broadcast use group_to_multiset_ensures, group_multiset_axioms;

            assert(v_before =~= v@.push(x));
        }
        let fx = lowercase(x.name.as_str());
        let mut p: usize = 0;
        loop
            invariant_except_break
                0 <= p <= out@.len(),
                fx@ == lower_of(x.name@),
                forall|j: int|
                    0 <= j < p ==> lex_le(lower_of(out@[j].name@), lower_of(x.name@)),
            ensures
                0 <= p <= out@.len(),
                forall|j: int|
                    0 <= j < p ==> lex_le(lower_of(out@[j].name@), lower_of(x.name@)),
                p < out@.len() ==> !lex_le(lower_of(out@[p as int].name@), lower_of(x.name@)),
            decreases out@.len() - p,
        {
            if p >= out.len() {
                break;
            }
            let fe = lowercase(out[p].name.as_str());
            if !str_lex_le(fe.as_str(), fx.as_str()) {
                break;
            }
            p = p + 1;
        }
        proof {
            if p < out@.len() {
                lemma_lex_le_total(lower_of(out@[p as int].name@), lower_of(x.name@));
            }
        }
        let ghost out_before = out@;
        out.insert(p, x);
        proof {
            broadcast use group_to_multiset_ensures, group_multiset_axioms;

            lemma_insert_multiset(out_before, p as int, x);
            assert(v_before =~= v@.push(x));
            assert(v_before.to_multiset() =~= v@.to_multiset().insert(x));
            assert(out@.to_multiset() =~= out_before.to_multiset().insert(x));
            assert(out@.to_multiset().add(v@.to_multiset()) =~= orig.to_multiset());
            assert forall|i: int, j: int| 0 <= i < j < out@.len() implies lex_le(
                lower_of(out@[i].name@),
                lower_of(out@[j].name@),
            ) by {
                if j < p {
                } else if i == p {
                    assert(out@[j] == out_before[j - 1]);
                    if j - 1 > p - 1 && p < out_before.len() {
                        if j - 1 == p {
                            assert(lex_le(lower_of(x.name@), lower_of(out_before[j - 1].name@)));
                        } else {
                            lemma_lex_le_trans(
                                lower_of(x.name@),
                                lower_of(out_before[p as int].name@),
                                lower_of(out_before[j - 1].name@),
                            );
                        }
                    }
                } else if j == p {
                } else if i > p {
                    assert(out@[i] == out_before[i - 1]);
                    assert(out@[j] == out_before[j - 1]);
                } else {
                    assert(out@[j] == out_before[j - 1]);
                }
            }
        }
    }
    proof {
        assert(v@.to_multiset().len() == 0);
        assert(out@.to_multiset() =~= orig.to_multiset());
        lemma_total_stars_permutation(out@, orig);
    }
    out
}

/// Sorts by the selected key: "stars" gives descending star counts, "name"
/// gives ascending case-insensitive names, and any other key defaults to the
/// "stars" ordering.
pub fn sort_by_key(repos: Vec<Repo>, sort_by: &str) -> (out: Vec<Repo>)
    ensures
        out@.to_multiset() == repos@.to_multiset(),
        out@.len() == repos@.len(),
        total_of(out@) == total_of(repos@),
        sort_by@ == "name"@ ==> sorted_by_name_asc(out@),
        sort_by@ != "name"@ ==> sorted_by_stars_desc(out@),
{
    let key = sort_by.to_owned();
    let name_key = "name".to_owned();
    if key == name_key {
        sort_by_name(repos)
    } else {
        sort_by_stars(repos)
    }
}

/// The total never drops when a sequence is extended at the end.
proof fn lemma_total_take_le(s: Seq<Repo>, k: int)
    requires
        0 <= k <= s.len(),
    ensures
        total_of(s.take(k)) <= total_of(s),
    decreases s.len(),
{
    if k == s.len() {
        assert(s.take(k) =~= s);
    } else {
        assert(s.take(k) =~= s.drop_last().take(k));
        lemma_total_take_le(s.drop_last(), k);
    }
}

/// Sums the star counts over the whole (already filtered, untruncated) set.
pub fn total_stars(repos: &Vec<Repo>) -> (t: u32)
    requires
        total_of(repos@) <= u32::MAX,
    ensures
        t == total_of(repos@),
{
    let mut t: u32 = 0;
    let mut i: usize = 0;
    while i < repos.len()
        invariant
            0 <= i <= repos@.len(),
            t == total_of(repos@.take(i as int)),
            total_of(repos@) <= u32::MAX,
        decreases repos@.len() - i,
    {
        proof {
            assert(repos@.take(i + 1).drop_last() =~= repos@.take(i as int));
            assert(repos@.take(i + 1).last() == repos@[i as int]);
            lemma_total_take_le(repos@, i + 1);
        }
        t = t + repos[i].stargazers_count;
        i = i + 1;
    }
    proof {
        assert(repos@.take(repos@.len() as int) =~= repos@);
    }
    t
}

/// Finds the most-starred record of the set, independent of display order:
/// the index of the first record whose star count no other record exceeds.
pub fn most_starred(repos: &Vec<Repo>) -> (r: Option<usize>)
    ensures
        r is None <==> repos@.len() == 0,
        r matches Some(i) ==> 0 <= i < repos@.len() && (forall|j: int|
            0 <= j < repos@.len() ==> repos@[j].stargazers_count
                <= repos@[i as int].stargazers_count) && (forall|j: int|
            0 <= j < i ==> repos@[j].stargazers_count < repos@[i as int].stargazers_count),
{
    if repos.len() == 0 {
        return None;
    }
    let mut best: usize = 0;
    let mut i: usize = 1;
    while i < repos.len()
        invariant
            0 <= best < i <= repos@.len(),
            forall|j: int|
                0 <= j < i ==> repos@[j].stargazers_count <= repos@[best as int].stargazers_count,
            forall|j: int|
                0 <= j < best ==> repos@[j].stargazers_count < repos@[best as int].stargazers_count,
        decreases repos@.len() - i,
    {
        if repos[i].stargazers_count > repos[best].stargazers_count {
            best = i;
        }
        i = i + 1;
    }
    Some(best)
}


/// Number of records whose language is known and equals `l`.
pub open spec fn lang_count(s: Seq<Repo>, l: Seq<char>) -> nat
    decreases s.len(),
{
    if s.len() == 0 {
        0
    } else {
        lang_count(s.drop_last(), l) + (match s.last().language {
            Some(x) => if x@ == l {
                1nat
            } else {
                0nat
            },
            None => 0nat,
        })
    }
}

/// A language is counted at most once per record.
proof fn lemma_lang_count_le(s: Seq<Repo>, l: Seq<char>)
    ensures
        lang_count(s, l) <= s.len(),
    decreases s.len(),
{
    if s.len() > 0 {
        lemma_lang_count_le(s.drop_last(), l);
    }
}

/// A positive count means some record carries that language.
proof fn lemma_lang_count_pos(s: Seq<Repo>, l: Seq<char>)
    requires
        lang_count(s, l) > 0,
    ensures
        exists|k: int|
            0 <= k < s.len() && ((#[trigger] s[k]).language matches Some(x) && x@ == l),
    decreases s.len(),
{
    if s.last().language matches Some(x) && x@ == l {
        assert(0 <= s.len() - 1 < s.len() && (s[s.len() - 1].language matches Some(x)
            && x@ == l));
    } else {
        lemma_lang_count_pos(s.drop_last(), l);
        let k = choose|k: int|
            0 <= k < s.drop_last().len() && ((#[trigger] s.drop_last()[k]).language matches Some(x)
                && x@ == l);
        assert(s[k] == s.drop_last()[k]);
    }
}

/// The tally's keys name pairwise distinct languages.
pub open spec fn tally_keys_unique(t: Seq<(String, usize)>) -> bool {
    forall|i: int, j: int| 0 <= i < j < t.len() ==> t[i].0@ != t[j].0@
}

/// Every tally entry carries the exact occurrence count of its language,
/// and only languages that occur are listed.
pub open spec fn tally_counts_ok(s: Seq<Repo>, t: Seq<(String, usize)>) -> bool {
    forall|i: int| 0 <= i < t.len() ==> (#[trigger] t[i]).1 == lang_count(s, t[i].0@) && t[i].1
        >= 1
}

/// Some entry of the tally names the language `l`.
pub open spec fn has_key(t: Seq<(String, usize)>, l: Seq<char>) -> bool {
    exists|i: int| 0 <= i < t.len() && (#[trigger] t[i]).0@ == l
}

/// Every known language of the record set appears in the tally.
pub open spec fn tally_covers(s: Seq<Repo>, t: Seq<(String, usize)>) -> bool {
    forall|k: int|
        0 <= k < s.len() ==> match (#[trigger] s[k]).language {
            Some(l) => has_key(t, l@),
            None => true,
        }
}

/// Counts how often each known language occurs, keyed by the language text
/// exactly as the records carry it; records without a language are ignored.
pub fn language_tally(repos: &Vec<Repo>) -> (t: Vec<(String, usize)>)
    ensures
        tally_keys_unique(t@),
        tally_counts_ok(repos@, t@),
        tally_covers(repos@, t@),
{
    let mut t: Vec<(String, usize)> = Vec::new();
    let mut k: usize = 0;
    while k < repos.len()
        invariant
            0 <= k <= repos@.len(),
            tally_keys_unique(t@),
            tally_counts_ok(repos@.take(k as int), t@),
            tally_covers(repos@.take(k as int), t@),
        decreases repos@.len() - k,
    {
        let ghost pre = repos@.take(k as int);
        let ghost cur = repos@.take(k + 1);
        proof {
            assert(cur.drop_last() =~= pre);
            assert(cur.last() == repos@[k as int]);
            assert(forall|l: Seq<char>| #![all_triggers] lang_count(cur, l) == lang_count(pre, l)
                + (match repos@[k as int].language {
                Some(x) => if x@ == l {
                    1nat
                } else {
                    0nat
                },
                None => 0nat,
            }));
        }
        let ghost t_pre = t@;
        match &repos[k].language {
            Some(l) => {
                let mut j: usize = 0;
                let mut found = false;
                loop
                    invariant_except_break
                        0 <= j <= t@.len(),
                        !found,
                        forall|i: int| 0 <= i < j ==> (#[trigger] t@[i]).0@ != l@,
                    ensures
                        found ==> 0 <= j < t@.len() && t@[j as int].0@ == l@,
                        !found ==> forall|i: int| 0 <= i < t@.len() ==> (#[trigger] t@[i]).0@
                            != l@,
                    decreases t@.len() - j,
                {
                    if j >= t.len() {
                        break;
                    }
                    if t[j].0 == *l {
                        found = true;
                        break;
                    }
                    j = j + 1;
                }
                if found {
                    proof {
                        lemma_lang_count_le(pre, t@[j as int].0@);
                    }
                    let ghost t_old = t@;
                    let e = t.remove(j);
                    let e2 = (e.0, e.1 + 1);
                    t.insert(j, e2);
                    proof {
                        assert(t@ =~= t_old.update(j as int, (e.0, (e.1 + 1) as usize)));
                        assert(t@[j as int].0@ == l@);
                        assert(has_key(t@, l@));
                    }
                } else {
                    proof {
                        if lang_count(pre, l@) > 0 {
                            lemma_lang_count_pos(pre, l@);
                        }
                        assert(lang_count(pre, l@) == 0);
                    }
                    t.push((l.clone(), 1));
                    proof {
                        assert(t@[t@.len() - 1].0@ == l@);
                        assert(has_key(t@, l@));
                    }
                }
            },
            None => {},
        }
        proof {
            assert(t_pre.len() <= t@.len());
            assert(forall|i: int| 0 <= i < t_pre.len() ==> (#[trigger] t@[i]).0 == t_pre[i].0);
            assert forall|kk: int|
                0 <= kk < cur.len() implies match (#[trigger] cur[kk]).language {
                Some(l) => has_key(t@, l@),
                None => true,
            } by {
                if kk < pre.len() {
                    assert(cur[kk] == pre[kk]);
                    match pre[kk].language {
                        Some(l) => {
                            assert(has_key(t_pre, l@));
                            let i = choose|i: int|
                                0 <= i < t_pre.len() && (#[trigger] t_pre[i]).0@ == l@;
                            assert(t@[i].0@ == l@);
                        },
                        None => {},
                    }
                } else {
                    assert(cur[kk] == repos@[k as int]);
                }
            }
            assert(tally_covers(cur, t@));
        }
        k = k + 1;
    }
    proof {
        assert(repos@.take(repos@.len() as int) =~= repos@);
    }
    t
}

/// Counts are non-increasing along the tally.
pub open spec fn sorted_counts_desc(t: Seq<(String, usize)>) -> bool {
    forall|i: int, j: int| 0 <= i < j < t.len() ==> (#[trigger] t[i]).1 >= (#[trigger] t[j]).1
}

/// A rearrangement of a well-formed tally is a well-formed tally over the
/// same languages.
proof fn lemma_tally_perm(s: Seq<Repo>, a: Seq<(String, usize)>, b: Seq<(String, usize)>)
    requires
        a.to_multiset() == b.to_multiset(),
        tally_keys_unique(a),
        tally_counts_ok(s, a),
    ensures
        tally_keys_unique(b),
        tally_counts_ok(s, b),
        forall|l: Seq<char>| has_key(a, l) ==> has_key(b, l),
{
    broadcast use group_to_multiset_ensures, group_multiset_axioms;

    assert forall|i: int| 0 <= i < b.len() implies (#[trigger] b[i]).1 == lang_count(s, b[i].0@)
        && b[i].1 >= 1 by {
        assert(b.contains(b[i]));
        assert(b.to_multiset().count(b[i]) > 0);
        assert(a.to_multiset().count(b[i]) > 0);
        assert(a.contains(b[i]));
        let j = choose|j: int| 0 <= j < a.len() && a[j] == b[i];
        assert(a[j].1 == lang_count(s, a[j].0@) && a[j].1 >= 1);
    }
    assert forall|l: Seq<char>| has_key(a, l) implies has_key(b, l) by {
        let i = choose|i: int| 0 <= i < a.len() && (#[trigger] a[i]).0@ == l;
        assert(a.contains(a[i]));
        assert(a.to_multiset().count(a[i]) > 0);
        assert(b.to_multiset().count(a[i]) > 0);
        assert(b.contains(a[i]));
        let j = choose|j: int| 0 <= j < b.len() && b[j] == a[i];
        assert(b[j].0@ == l);
    }
    assert forall|i: int, j: int| 0 <= i < j < b.len() implies b[i].0@ != b[j].0@ by {
        if b[i].0@ == b[j].0@ {
            if b[i] == b[j] {
                let s0 = b.subrange(0, j);
                let s1 = b.subrange(j, b.len() as int);
                assert(b =~= s0 + s1);
                lemma_multiset_commutative(s0, s1);
                assert(s0[i] == b[i]);
                assert(s0.contains(b[i]));
                assert(s1[0] == b[j]);
                assert(s1.contains(b[j]));
                assert(b.to_multiset().count(b[i]) >= 2);
                assert(a.to_multiset().count(b[i]) >= 2);
                assert(a.contains(b[i]));
                let j1 = choose|m: int| 0 <= m < a.len() && a[m] == b[i];
                let a2 = a.remove(j1);
                assert(a2.to_multiset() =~= a.to_multiset().remove(a[j1]));
                assert(a2.to_multiset().count(b[i]) >= 1);
                assert(a2.contains(b[i]));
                let j2 = choose|m: int| 0 <= m < a2.len() && a2[m] == b[i];
                let jj = if j2 < j1 {
                    j2
                } else {
                    j2 + 1
                };
                assert(a[jj] == b[i] && jj != j1);
                assert(a[jj].0@ == a[j1].0@);
                assert(false);
            } else {
                assert(b.contains(b[i]));
                assert(b.to_multiset().count(b[i]) > 0);
                assert(a.to_multiset().count(b[i]) > 0);
                assert(a.contains(b[i]));
                assert(b.contains(b[j]));
                assert(b.to_multiset().count(b[j]) > 0);
                assert(a.to_multiset().count(b[j]) > 0);
                assert(a.contains(b[j]));
                let j1 = choose|m: int| 0 <= m < a.len() && a[m] == b[i];
                let j2 = choose|m: int| 0 <= m < a.len() && a[m] == b[j];
                assert(j1 != j2);
                assert(a[j1].0@ == a[j2].0@);
                assert(false);
            }
        }
    }
}

/// Sorts a tally by occurrence count, highest first, keeping it a
/// rearrangement of the input.
fn sort_tally(t: Vec<(String, usize)>) -> (out: Vec<(String, usize)>)
    ensures
        out@.to_multiset() == t@.to_multiset(),
        sorted_counts_desc(out@),
        out@.len() == t@.len(),
{
    broadcast use group_to_multiset_ensures, group_multiset_axioms;

    let ghost orig = t@;
    let mut v = t;
    let mut out: Vec<(String, usize)> = Vec::new();
    while v.len() > 0
        invariant
            out@.to_multiset().add(v@.to_multiset()) =~= orig.to_multiset(),
            sorted_counts_desc(out@),
            out@.len() + v@.len() == orig.len(),
        decreases v@.len(),
    {
        let ghost v_before = v@;
        let x = v.pop().unwrap();
        proof {
            broadcast use group_to_multiset_ensures, group_multiset_axioms;

            assert(v_before =~= v@.push(x));
        }
        let mut p: usize = 0;
        while p < out.len() && out[p].1 >= x.1
            invariant
                0 <= p <= out@.len(),
                forall|j: int| 0 <= j < p ==> (#[trigger] out@[j]).1 >= x.1,
            decreases out@.len() - p,
        {
            p = p + 1;
        }
        let ghost out_before = out@;
        out.insert(p, x);
        proof {
            broadcast use group_to_multiset_ensures, group_multiset_axioms;

            lemma_insert_multiset(out_before, p as int, x);
            assert(v_before =~= v@.push(x));
            assert(v_before.to_multiset() =~= v@.to_multiset().insert(x));
            assert(out@.to_multiset() =~= out_before.to_multiset().insert(x));
            assert(out@.to_multiset().add(v@.to_multiset()) =~= orig.to_multiset());
            assert forall|i: int, j: int| 0 <= i < j < out@.len() implies (#[trigger] out@[i]).1
                >= (#[trigger] out@[j]).1 by {
                if j < p {
                } else if i == p {
                    assert(out@[j] == out_before[j - 1]);
                } else if j == p {
                } else if i > p {
                    assert(out@[i] == out_before[i - 1]);
                    assert(out@[j] == out_before[j - 1]);
                } else {
                    assert(out@[j] == out_before[j - 1]);
                }
            }
        }
    }
    proof {
        assert(v@.to_multiset().len() == 0);
        assert(out@.to_multiset() =~= orig.to_multiset());
    }
    out
}

/// The top-language summary: at most five languages, ordered by descending
/// occurrence count, each with its exact count over the full filtered set;
/// records without a known language are never counted. Any known language
/// left out only falls below the listed counts, and is left out only when
/// five are already listed.
pub fn top_languages(repos: &Vec<Repo>) -> (r: Vec<(String, usize)>)
    ensures
        r@.len() <= 5,
        tally_keys_unique(r@),
        tally_counts_ok(repos@, r@),
        sorted_counts_desc(r@),
        forall|k: int|
            0 <= k < repos@.len() ==> match (#[trigger] repos@[k]).language {
                Some(l) => has_key(r@, l@) || r@.len() == 5,
                None => true,
            },
        forall|k: int|
            0 <= k < repos@.len() ==> match (#[trigger] repos@[k]).language {
                Some(l) => has_key(r@, l@) || (r@.len() > 0 && lang_count(repos@, l@) <= r@[
                    r@.len() - 1].1),
                None => true,
            },
{
    let t = language_tally(repos);
    let ghost t0 = t@;
    let sorted = sort_tally(t);
    proof {
        lemma_tally_perm(repos@, t0, sorted@);
    }
    let ghost full = sorted@;
    let mut out = sorted;
    proof {
        assert(out@.take(out@.len() as int) =~= out@);
    }
    out.truncate(5);
    proof {
        assert forall|k: int|
            0 <= k < repos@.len() implies match (#[trigger] repos@[k]).language {
            Some(l) => has_key(out@, l@) || out@.len() == 5,
            None => true,
        } by {
            match repos@[k].language {
                Some(l) => {
                    assert(has_key(t0, l@));
                    assert(has_key(full, l@));
                    let i = choose|i: int| 0 <= i < full.len() && (#[trigger] full[i]).0@ == l@;
                    if i < out@.len() {
                        assert(out@[i].0@ == l@);
                        assert(has_key(out@, l@));
                    } else {
                        assert(full.len() > 5);
                        assert(out@.len() == 5);
                    }
                },
                None => {},
            }
        }
        assert forall|k: int|
            0 <= k < repos@.len() implies match (#[trigger] repos@[k]).language {
            Some(l) => has_key(out@, l@) || (out@.len() > 0 && lang_count(repos@, l@) <= out@[
                out@.len() - 1].1),
            None => true,
        } by {
            match repos@[k].language {
                Some(l) => {
                    assert(has_key(t0, l@));
                    assert(has_key(full, l@));
                    let i = choose|i: int| 0 <= i < full.len() && (#[trigger] full[i]).0@ == l@;
                    if i < out@.len() {
                        assert(out@[i].0@ == l@);
                        assert(has_key(out@, l@));
                    } else {
                        assert(full[i].1 == lang_count(repos@, l@));
                        assert(full[i].1 <= full[out@.len() - 1].1);
                        assert(out@[out@.len() - 1] == full[out@.len() - 1]);
                    }
                },
                None => {},
            }
        }
    }
    out
}


} // verus!

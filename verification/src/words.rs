//! The word-frequency counter: splits a text on whitespace, lowercases each
//! word, strips every character that is neither alphanumeric nor an
//! apostrophe, and counts how often each cleaned word occurs.

use vstd::prelude::*;
use vstd::multiset::group_multiset_axioms;
use vstd::seq_lib::group_to_multiset_ensures;
use crate::pipeline::lemma_insert_multiset;
use crate::text::{alnum, lex_le, lower_of, split_ws, lowercase, split_whitespace_words,
    char_is_alphanumeric, str_lex_le, lemma_lex_le_total, lemma_lex_le_trans};

verus! {

/// A word as it is counted: lowercased, with only alphanumeric characters
/// and apostrophes kept.
pub open spec fn cleaned(w: Seq<char>) -> Seq<char> {
    lower_of(w).filter(|c: char| alnum(c) || c == '\'')
}

/// How often the cleaned form of a word equals `w` over the given words.
pub open spec fn word_count(words: Seq<Seq<char>>, w: Seq<char>) -> nat
    decreases words.len(),
{
    if words.len() == 0 {
        0
    } else {
        word_count(words.drop_last(), w) + if cleaned(words.last()) == w {
            1nat
        } else {
            0nat
        }
    }
}

/// A word is counted at most once per occurrence.
proof fn lemma_word_count_le(words: Seq<Seq<char>>, w: Seq<char>)
    ensures
        word_count(words, w) <= words.len(),
    decreases words.len(),
{
    if words.len() > 0 {
        lemma_word_count_le(words.drop_last(), w);
    }
}

/// A positive count means some word cleans to `w`.
proof fn lemma_word_count_pos(words: Seq<Seq<char>>, w: Seq<char>)
    requires
        word_count(words, w) > 0,
    ensures
        exists|k: int| 0 <= k < words.len() && cleaned(#[trigger] words[k]) == w,
    decreases words.len(),
{
    if cleaned(words.last()) == w {
        assert(cleaned(words[words.len() - 1]) == w);
    } else {
        lemma_word_count_pos(words.drop_last(), w);
        let k = choose|k: int|
            0 <= k < words.drop_last().len() && cleaned(#[trigger] words.drop_last()[k]) == w;
        assert(cleaned(words[k]) == w);
    }
}

/// Relies on `String::push`: appends exactly one character.
#[verifier::external_body]
fn push_char(s: &mut String, c: char)
    ensures
        final(s)@ == old(s)@.push(c),
{
    s.push(c);
}

/// Lowercases one word and drops every character that is neither
/// alphanumeric nor an apostrophe.
fn clean_word(w: &str) -> (r: String)
    ensures
        r@ == cleaned(w@),
{
    let lw = lowercase(w);
    let n = lw.as_str().unicode_len();
    let mut r = String::new();
    let mut i: usize = 0;
    while i < n
        invariant
            0 <= i <= n,
            n == lw@.len(),
            lw@ == lower_of(w@),
            r@ == lw@.take(i as int).filter(|c: char| alnum(c) || c == '\''),
        decreases n - i,
    {
        let c = lw.as_str().get_char(i);
        if char_is_alphanumeric(c) || c == '\'' {
            push_char(&mut r, c);
        }
        proof {
            reveal_with_fuel(Seq::<_>::filter, 2);
            let t1 = lw@.take(i + 1);
            assert(t1.drop_last() =~= lw@.take(i as int));
            assert(t1.last() == lw@[i as int]);
            assert(r@ == t1.filter(|c: char| alnum(c) || c == '\''));
        }
        i = i + 1;
    }
    proof {
        assert(lw@.take(lw@.len() as int) =~= lw@);
    }
    r
}

/// Counts the words of a text: the result maps each cleaned word that occurs
/// to exactly how often it occurs. Words that clean to nothing (pure
/// punctuation) are not counted, keys are pairwise distinct, and every word
/// of the text with a non-empty cleaned form has its entry.
pub fn count_words(text: &str) -> (c: Vec<(String, usize)>)
    ensures
        forall|i: int, j: int| 0 <= i < j < c@.len() ==> c@[i].0@ != c@[j].0@,
        forall|i: int|
            0 <= i < c@.len() ==> (#[trigger] c@[i]).1 == word_count(split_ws(text@), c@[i].0@)
                && c@[i].1 >= 1 && c@[i].0@.len() > 0,
        forall|k: int|
            0 <= k < split_ws(text@).len() && cleaned(#[trigger] split_ws(text@)[k]).len() > 0
                ==> exists|i: int|
                0 <= i < c@.len() && (#[trigger] c@[i]).0@ == cleaned(split_ws(text@)[k]),
{
    let words = split_whitespace_words(text);
    let ghost wseq = split_ws(text@);
    let mut c: Vec<(String, usize)> = Vec::new();
    let mut k: usize = 0;
    while k < words.len()
        invariant
            0 <= k <= words@.len(),
            words@.len() == wseq.len(),
            forall|i: int| 0 <= i < wseq.len() ==> (#[trigger] words@[i])@ == wseq[i],
            forall|i: int, j: int| 0 <= i < j < c@.len() ==> c@[i].0@ != c@[j].0@,
            forall|i: int|
                0 <= i < c@.len() ==> (#[trigger] c@[i]).1 == word_count(
                    wseq.take(k as int),
                    c@[i].0@,
                ) && c@[i].1 >= 1 && c@[i].0@.len() > 0,
            forall|kk: int|
                0 <= kk < k && cleaned(#[trigger] wseq[kk]).len() > 0 ==> exists|i: int|
                    0 <= i < c@.len() && (#[trigger] c@[i]).0@ == cleaned(wseq[kk]),
        decreases words@.len() - k,
    {
        let ghost pre = wseq.take(k as int);
        let ghost cur = wseq.take(k + 1);
        proof {
            assert(cur.drop_last() =~= pre);
            assert(cur.last() == wseq[k as int]);
            assert(forall|w: Seq<char>| #![all_triggers] word_count(cur, w) == word_count(pre, w)
                + if cleaned(wseq[k as int]) == w {
                1nat
            } else {
                0nat
            });
        }
        let ghost c_pre = c@;
        let cw = clean_word(words[k].as_str());
        if cw.as_str().unicode_len() > 0 {
            let mut j: usize = 0;
            let mut found = false;
            loop
                invariant_except_break
                    0 <= j <= c@.len(),
                    !found,
                    forall|i: int| 0 <= i < j ==> (#[trigger] c@[i]).0@ != cw@,
                ensures
                    found ==> 0 <= j < c@.len() && c@[j as int].0@ == cw@,
                    !found ==> forall|i: int|
                        0 <= i < c@.len() ==> (#[trigger] c@[i]).0@ != cw@,
                decreases c@.len() - j,
            {
                if j >= c.len() {
                    break;
                }
                if c[j].0 == cw {
                    found = true;
                    break;
                }
                j = j + 1;
            }
            if found {
                proof {
                    lemma_word_count_le(pre, c@[j as int].0@);
                }
                let ghost c_old = c@;
                let e = c.remove(j);
                let e2 = (e.0, e.1 + 1);
                c.insert(j, e2);
                proof {
                    assert(c@ =~= c_old.update(j as int, (e.0, (e.1 + 1) as usize)));
                    assert(c@[j as int].0@ == cw@);
                }
            } else {
                proof {
                    if word_count(pre, cw@) > 0 {
                        lemma_word_count_pos(pre, cw@);
                    }
                    assert(word_count(pre, cw@) == 0);
                }
                c.push((cw, 1));
                proof {
                    assert(c@[c@.len() - 1].0@ == cleaned(wseq[k as int]));
                }
            }
        }
        proof {
            assert(c_pre.len() <= c@.len());
            assert(forall|i: int| 0 <= i < c_pre.len() ==> (#[trigger] c@[i]).0 == c_pre[i].0);
            assert(cw@ == cleaned(wseq[k as int]));
            assert forall|kk: int|
                0 <= kk < k + 1 && cleaned(#[trigger] wseq[kk]).len() > 0 implies exists|i: int|
                0 <= i < c@.len() && (#[trigger] c@[i]).0@ == cleaned(wseq[kk]) by {
                if kk < k {
                    let i = choose|i: int|
                        0 <= i < c_pre.len() && (#[trigger] c_pre[i]).0@ == cleaned(wseq[kk]);
                    assert(c@[i].0@ == cleaned(wseq[kk]));
                }
            }
        }
        k = k + 1;
    }
    proof {
        assert(wseq.take(wseq.len() as int) =~= wseq);
    }
    c
}

/// Looks a word up in a count list with pairwise distinct keys: the exact
/// count recorded for it, or nothing when it has no entry.
pub fn lookup(counts: &Vec<(String, usize)>, w: &str) -> (r: Option<usize>)
    requires
        forall|i: int, j: int| 0 <= i < j < counts@.len() ==> counts@[i].0@ != counts@[j].0@,
    ensures
        r is None ==> forall|i: int| 0 <= i < counts@.len() ==> (#[trigger] counts@[i]).0@ != w@,
        r matches Some(n) ==> exists|i: int|
            0 <= i < counts@.len() && (#[trigger] counts@[i]).0@ == w@ && counts@[i].1 == n,
{
    let key = w.to_owned();
    let mut i: usize = 0;
    while i < counts.len()
        invariant
            0 <= i <= counts@.len(),
            key@ == w@,
            forall|j: int| 0 <= j < i ==> (#[trigger] counts@[j]).0@ != w@,
        decreases counts@.len() - i,
    {
        if counts[i].0 == key {
            return Some(counts[i].1);
        }
        i = i + 1;
    }
    None
}


/// The display rank of count entries: more occurrences first, ties broken
/// alphabetically by word.
pub open spec fn rank_le(a: (String, usize), b: (String, usize)) -> bool {
    a.1 > b.1 || (a.1 == b.1 && lex_le(a.0@, b.0@))
}

/// Entries are in display-rank order.
pub open spec fn ranked(t: Seq<(String, usize)>) -> bool {
    forall|i: int, j: int| 0 <= i < j < t.len() ==> rank_le(#[trigger] t[i], #[trigger] t[j])
}

/// Of two entries, one ranks at or before the other.
proof fn lemma_rank_le_total(a: (String, usize), b: (String, usize))
    ensures
        rank_le(a, b) || rank_le(b, a),
{
    if a.1 == b.1 {
        lemma_lex_le_total(a.0@, b.0@);
    }
}

/// Display rank is transitive.
proof fn lemma_rank_le_trans(a: (String, usize), b: (String, usize), c: (String, usize))
    requires
        rank_le(a, b),
        rank_le(b, c),
    ensures
        rank_le(a, c),
{
    if a.1 == b.1 && b.1 == c.1 {
        lemma_lex_le_trans(a.0@, b.0@, c.0@);
    }
}

/// Decides the display rank of two entries.
fn rank_le_exec(a: &(String, usize), b: &(String, usize)) -> (r: bool)
    ensures
        r == rank_le(*a, *b),
{
    if a.1 > b.1 {
        true
    } else if a.1 == b.1 {
        str_lex_le(a.0.as_str(), b.0.as_str())
    } else {
        false
    }
}

/// Sorts count entries into display order: descending by count, ties
/// ascending by word. The result is a rearrangement of the input.
pub fn rank_words(counts: Vec<(String, usize)>) -> (out: Vec<(String, usize)>)
    ensures
        out@.to_multiset() == counts@.to_multiset(),
        out@.len() == counts@.len(),
        ranked(out@),
{
    broadcast use group_to_multiset_ensures, group_multiset_axioms;

    let ghost orig = counts@;
    let mut v = counts;
    let mut out: Vec<(String, usize)> = Vec::new();
    while v.len() > 0
        invariant
            out@.to_multiset().add(v@.to_multiset()) =~= orig.to_multiset(),
            ranked(out@),
            out@.len() + v@.len() == orig.len(),
        decreases v@.len(),
    {
        let ghost v_before = v@;
        let x = v.pop().unwrap();
        proof {
            broadcast use group_to_multiset_ensures, group_multiset_axioms;

            assert(v_before =~= v@.push(x));
        }
        let mut p: usize = 0;
        while p < out.len() && rank_le_exec(&out[p], &x)
            invariant
                0 <= p <= out@.len(),
                forall|j: int| 0 <= j < p ==> rank_le(#[trigger] out@[j], x),
            decreases out@.len() - p,
        {
            p = p + 1;
        }
        proof {
            if p < out@.len() {
                lemma_rank_le_total(out@[p as int], x);
            }
        }
        let ghost out_before = out@;
        out.insert(p, x);
        proof {
            broadcast use group_to_multiset_ensures, group_multiset_axioms;

            lemma_insert_multiset(out_before, p as int, x);
            assert(v_before =~= v@.push(x));
            assert(v_before.to_multiset() =~= v@.to_multiset().insert(x));
            assert(out@.to_multiset() =~= out_before.to_multiset().insert(x));
            assert(out@.to_multiset().add(v@.to_multiset()) =~= orig.to_multiset());
            assert forall|i: int, j: int| 0 <= i < j < out@.len() implies rank_le(
                #[trigger] out@[i],
                #[trigger] out@[j],
            ) by {
                if j < p {
                } else if i == p {
                    assert(out@[j] == out_before[j - 1]);
                    if p < out_before.len() {
                        if j - 1 == p {
                        } else {
                            lemma_rank_le_trans(x, out_before[p as int], out_before[j - 1]);
                        }
                    }
                } else if j == p {
                } else if i > p {
                    assert(out@[i] == out_before[i - 1]);
                    assert(out@[j] == out_before[j - 1]);
                } else {
                    assert(out@[j] == out_before[j - 1]);
                }
            }
        }
    }
    proof {
        assert(v@.to_multiset().len() == 0);
        assert(out@.to_multiset() =~= orig.to_multiset());
    }
    out
}

} // verus!

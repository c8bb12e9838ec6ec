use vstd::prelude::*;

use crate::clue::{count_occ, count_occ_from};
use crate::optimize::word_views;
use crate::strings::str_to_chars;

verus! {

/// Total occurrences of `c` across all words.
pub open spec fn total_occ(words: Seq<Seq<char>>, c: char) -> nat
    decreases words.len(),
{
    if words.len() == 0 {
        0
    } else {
        total_occ(words.drop_last(), c) + count_occ(words.last(), c)
    }
}

/// Total number of characters across all words.
pub open spec fn total_len(words: Seq<Seq<char>>) -> nat
    decreases words.len(),
{
    if words.len() == 0 {
        0
    } else {
        total_len(words.drop_last()) + words.last().len()
    }
}

/// What a table of per-character tallies says about `c`: the sum of the
/// counts filed under that character.
pub open spec fn counts_of(r: Seq<(char, u64)>, c: char) -> nat
    decreases r.len(),
{
    if r.len() == 0 {
        0
    } else {
        counts_of(r.drop_last(), c) + (if r.last().0 == c {
            r.last().1 as nat
        } else {
            0nat
        })
    }
}

proof fn lemma_count_occ_from_le(s: Seq<char>, c: char, i: int)
    requires
        0 <= i <= s.len(),
    ensures
        count_occ_from(s, c, i) <= s.len() - i,
    decreases s.len() - i,
{
    if i < s.len() {
        lemma_count_occ_from_le(s, c, i + 1);
    }
}

proof fn lemma_total_occ_le_total_len(words: Seq<Seq<char>>, c: char)
    ensures
        total_occ(words, c) <= total_len(words),
    decreases words.len(),
{
    if words.len() > 0 {
        lemma_total_occ_le_total_len(words.drop_last(), c);
        lemma_count_occ_from_le(words.last(), c, 0);
    }
}

proof fn lemma_total_occ_take_step(words: Seq<Seq<char>>, c: char, i: int)
    requires
        0 <= i < words.len(),
    ensures
        total_occ(words.take(i + 1), c) == total_occ(words.take(i), c) + count_occ(words[i], c),
{
    assert(words.take(i + 1).drop_last() =~= words.take(i));
    assert(words.take(i + 1).last() == words[i]);
}

proof fn lemma_total_occ_prefix_le(words: Seq<Seq<char>>, c: char, i: int)
    requires
        0 <= i <= words.len(),
    ensures
        total_occ(words.take(i), c) <= total_occ(words, c),
    decreases words.len() - i,
{
    if i < words.len() {
        lemma_total_occ_take_step(words, c, i);
        lemma_total_occ_prefix_le(words, c, i + 1);
    } else {
        assert(words.take(i) =~= words);
    }
}

/// In a table with pairwise distinct characters, the tally of an entry's
/// character is that entry's count alone.
proof fn lemma_counts_of_distinct(r: Seq<(char, u64)>, k: int)
    requires
        forall|k1: int, k2: int| 0 <= k1 < k2 < r.len() ==> r[k1].0 != r[k2].0,
        0 <= k < r.len(),
    ensures
        counts_of(r, r[k].0) == r[k].1 as nat,
    decreases r.len(),
{
    if k == r.len() - 1 {
        lemma_counts_of_absent(r.drop_last(), r[k].0);
    } else {
        assert(forall|k1: int, k2: int|
            0 <= k1 < k2 < r.drop_last().len() ==> r.drop_last()[k1].0 != r.drop_last()[k2].0);
        lemma_counts_of_distinct(r.drop_last(), k);
        assert(r.last().0 != r[k].0);
    }
}

proof fn lemma_counts_of_absent(r: Seq<(char, u64)>, c: char)
    requires
        forall|k: int| 0 <= k < r.len() ==> (#[trigger] r[k]).0 != c,
    ensures
        counts_of(r, c) == 0,
    decreases r.len(),
{
    if r.len() > 0 {
        assert(forall|k: int|
            0 <= k < r.drop_last().len() ==> (#[trigger] r.drop_last()[k]).0 != c);
        lemma_counts_of_absent(r.drop_last(), c);
        assert(r[r.len() - 1].0 != c);
    }
}

proof fn lemma_counts_of_increment(r: Seq<(char, u64)>, j: int, e: (char, u64), c: char)
    requires
        0 <= j < r.len(),
        e.0 == r[j].0,
        e.1 as nat == r[j].1 as nat + 1,
    ensures
        counts_of(r.update(j, e), c) == counts_of(r, c) + (if e.0 == c {
            1nat
        } else {
            0nat
        }),
    decreases r.len(),
{
    if j == r.len() - 1 {
        assert(r.update(j, e).drop_last() =~= r.drop_last());
        assert(r.update(j, e).last() == e);
    } else {
        assert(r.update(j, e).drop_last() =~= r.drop_last().update(j, e));
        assert(r.update(j, e).last() == r.last());
        lemma_counts_of_increment(r.drop_last(), j, e, c);
    }
}

/// Tally every character across the words: one entry per character that
/// occurs, holding its total number of occurrences.
pub fn char_counts(words: &Vec<String>) -> (r: Vec<(char, u64)>)
    requires
        total_len(word_views(words@)) <= u64::MAX,
    ensures
        forall|c: char| #[trigger] counts_of(r@, c) == total_occ(word_views(words@), c),
        forall|k1: int, k2: int| 0 <= k1 < k2 < r@.len() ==> r@[k1].0 != r@[k2].0,
        forall|k: int|
            0 <= k < r@.len() ==> (#[trigger] r@[k]).1 as nat == total_occ(
                word_views(words@),
                r@[k].0,
            ) && r@[k].1 >= 1,
        forall|c: char|
            total_occ(word_views(words@), c) > 0 ==> exists|k: int|
                0 <= k < r@.len() && (#[trigger] r@[k]).0 == c,
{
    let ghost views = word_views(words@);
    let mut r: Vec<(char, u64)> = Vec::new();
    let mut i: usize = 0;
    while i < words.len()
        invariant
            i <= words@.len(),
            views == word_views(words@),
            total_len(views) <= u64::MAX,
            forall|c: char| #[trigger] counts_of(r@, c) == total_occ(views.take(i as int), c),
            forall|k1: int, k2: int| 0 <= k1 < k2 < r@.len() ==> r@[k1].0 != r@[k2].0,
            forall|k: int| 0 <= k < r@.len() ==> (#[trigger] r@[k]).1 >= 1,
        decreases words@.len() - i,
    {
        let wi = str_to_chars(words[i].as_str());
        let n = wi.len();
        proof {
            assert forall|c: char|
                total_occ(views.take(i + 1), c) == total_occ(views.take(i as int), c) + count_occ(
                    wi@,
                    c,
                ) by {
                lemma_total_occ_take_step(views, c, i as int);
            }
        }
        let mut t: usize = 0;
        while t < n
            invariant
                t <= n,
                n == wi@.len(),
                i < words@.len(),
                wi@ == words@[i as int]@,
                views == word_views(words@),
                total_len(views) <= u64::MAX,
                forall|c: char|
                    #[trigger] counts_of(r@, c) + count_occ_from(wi@, c, t as int) == total_occ(
                        views.take(i + 1),
                        c,
                    ),
                forall|k1: int, k2: int| 0 <= k1 < k2 < r@.len() ==> r@[k1].0 != r@[k2].0,
                forall|k: int| 0 <= k < r@.len() ==> (#[trigger] r@[k]).1 >= 1,
            decreases n - t,
        {
            let ch = wi[t];
            let ghost old_r = r@;
            let mut j: usize = 0;
            let mut found = false;
            while j < r.len()
                invariant_except_break
                    !found,
                invariant
                    j <= r@.len(),
                    forall|u: int| 0 <= u < j ==> (#[trigger] r@[u]).0 != ch,
                ensures
                    found ==> j < r@.len() && r@[j as int].0 == ch,
                    !found ==> forall|u: int| 0 <= u < r@.len() ==> (#[trigger] r@[u]).0 != ch,
                decreases r@.len() - j,
            {
                if r[j].0 == ch {
                    found = true;
                    break ;
                }
                j += 1;
            }
            if found {
                let cnt = r[j].1;
                proof {
                    lemma_counts_of_distinct(r@, j as int);
                    assert(count_occ_from(wi@, ch, t as int) >= 1);
                    lemma_total_occ_prefix_le(views, ch, i + 1);
                    lemma_total_occ_le_total_len(views, ch);
                }
                let bumped = cnt + 1;
                r.set(j, (ch, bumped));
                proof {
                    assert forall|c: char|
                        #[trigger] counts_of(r@, c) == counts_of(old_r, c) + (if c == ch {
                            1nat
                        } else {
                            0nat
                        }) by {
                        lemma_counts_of_increment(old_r, j as int, (ch, bumped), c);
                    }
                }
            } else {
                proof {
                    lemma_counts_of_absent(r@, ch);
                }
                r.push((ch, 1));
                proof {
                    assert forall|c: char|
                        #[trigger] counts_of(r@, c) == counts_of(old_r, c) + (if c == ch {
                            1nat
                        } else {
                            0nat
                        }) by {
                        assert(r@.drop_last() =~= old_r);
                        assert(r@.last() == (ch, 1u64));
                    }
                }
            }
            t += 1;
        }
        proof {
            assert forall|c: char| #[trigger] counts_of(r@, c) == total_occ(
                views.take(i + 1),
                c,
            ) by {
                assert(count_occ_from(wi@, c, n as int) == 0);
            }
        }
        i += 1;
    }
    proof {
        assert(views.take(words@.len() as int) =~= views);
        assert forall|k: int| 0 <= k < r@.len() implies (#[trigger] r@[k]).1 as nat == total_occ(
            views,
            r@[k].0,
        ) && r@[k].1 >= 1 by {
            lemma_counts_of_distinct(r@, k);
        }
        assert forall|c: char| total_occ(views, c) > 0 implies exists|k: int|
            0 <= k < r@.len() && (#[trigger] r@[k]).0 == c by {
            if !(exists|k: int| 0 <= k < r@.len() && (#[trigger] r@[k]).0 == c) {
                assert(forall|k: int| 0 <= k < r@.len() ==> (#[trigger] r@[k]).0 != c);
                lemma_counts_of_absent(r@, c);
            }
        }
    }
    r
}

} // verus!

use vstd::prelude::*;

use crate::clue::{clue_spec, compare_words};

verus! {

/// The character sequences of a vector of strings.
pub open spec fn word_views(s: Seq<String>) -> Seq<Seq<char>> {
    s.map_values(|x: String| x@)
}

/// Number of words whose clue against `guess` is exactly `pattern`.
pub open spec fn count_clue(words: Seq<Seq<char>>, guess: Seq<char>, pattern: Seq<char>) -> nat
    decreases words.len(),
{
    if words.len() == 0 {
        0
    } else {
        count_clue(words.drop_last(), guess, pattern) + (if clue_spec(words.last(), guess)
            == pattern {
            1nat
        } else {
            0nat
        })
    }
}

/// The distinct clue patterns the words would answer `guess` with.
pub open spec fn clue_patterns(words: Seq<Seq<char>>, guess: Seq<char>) -> Set<Seq<char>> {
    words.map_values(|w: Seq<char>| clue_spec(w, guess)).to_set()
}

/// How many distinct clue groups a guess splits the words into.
pub open spec fn num_groups(words: Seq<Seq<char>>, guess: Seq<char>) -> nat {
    clue_patterns(words, guess).len()
}

proof fn lemma_count_clue_le_len(words: Seq<Seq<char>>, guess: Seq<char>, pattern: Seq<char>)
    ensures
        count_clue(words, guess, pattern) <= words.len(),
    decreases words.len(),
{
    if words.len() > 0 {
        lemma_count_clue_le_len(words.drop_last(), guess, pattern);
    }
}

/// A pattern has a positive count exactly when some word answers with it.
proof fn lemma_count_clue_pos(words: Seq<Seq<char>>, guess: Seq<char>, pattern: Seq<char>)
    ensures
        count_clue(words, guess, pattern) > 0 <==> exists|k: int|
            0 <= k < words.len() && clue_spec(#[trigger] words[k], guess) == pattern,
    decreases words.len(),
{
    if words.len() > 0 {
        lemma_count_clue_pos(words.drop_last(), guess, pattern);
        let rest = words.drop_last();
        if count_clue(words, guess, pattern) > 0 {
            if clue_spec(words.last(), guess) == pattern {
                assert(clue_spec(words[words.len() - 1], guess) == pattern);
            } else {
                let k = choose|k: int|
                    0 <= k < rest.len() && clue_spec(#[trigger] rest[k], guess) == pattern;
                assert(clue_spec(words[k], guess) == pattern);
            }
        }
        if exists|k: int| 0 <= k < words.len() && clue_spec(#[trigger] words[k], guess)
            == pattern {
            let k = choose|k: int|
                0 <= k < words.len() && clue_spec(#[trigger] words[k], guess) == pattern;
            if k < words.len() - 1 {
                assert(clue_spec(rest[k], guess) == pattern);
            }
        }
    }
}

/// Group the candidate words by the clue each would answer `guess` with:
/// one entry per distinct clue pattern, holding how many words produce it.
/// The number of entries is the number of clue groups the guess induces.
pub fn clue_groups(word_set: &Vec<String>, guess: &str) -> (r: Vec<(String, u64)>)
    requires
        forall|k: int| 0 <= k < word_set@.len() ==> (#[trigger] word_set@[k])@.len() == guess@.len(),
    ensures
        forall|k: int|
            0 <= k < r@.len() ==> (#[trigger] r@[k]).1 as nat == count_clue(
                word_views(word_set@),
                guess@,
                r@[k].0@,
            ) && r@[k].1 >= 1,
        forall|p: Seq<char>|
            #[trigger] count_clue(word_views(word_set@), guess@, p) > 0 ==> exists|k: int|
                0 <= k < r@.len() && (#[trigger] r@[k]).0@ == p,
        forall|k1: int, k2: int| 0 <= k1 < k2 < r@.len() ==> r@[k1].0@ != r@[k2].0@,
        r@.len() == num_groups(word_views(word_set@), guess@),
{
    let ghost views = word_views(word_set@);
    let mut r: Vec<(String, u64)> = Vec::new();
    let mut i: usize = 0;
    while i < word_set.len()
        invariant
            i <= word_set@.len(),
            views == word_views(word_set@),
            forall|k: int|
                0 <= k < word_set@.len() ==> (#[trigger] word_set@[k])@.len() == guess@.len(),
            forall|k: int|
                0 <= k < r@.len() ==> (#[trigger] r@[k]).1 as nat == count_clue(
                    views.take(i as int),
                    guess@,
                    r@[k].0@,
                ) && r@[k].1 >= 1,
            forall|p: Seq<char>|
                #[trigger] count_clue(views.take(i as int), guess@, p) > 0 ==> exists|k: int|
                    0 <= k < r@.len() && (#[trigger] r@[k]).0@ == p,
            forall|k1: int, k2: int| 0 <= k1 < k2 < r@.len() ==> r@[k1].0@ != r@[k2].0@,
        decreases word_set@.len() - i,
    {
        let cl = compare_words(word_set[i].as_str(), guess);
        proof {
            assert(views.take(i + 1).drop_last() =~= views.take(i as int));
            assert(views.take(i + 1).last() == word_set@[i as int]@);
            lemma_count_clue_le_len(views.take(i as int), guess@, cl@);
            assert forall|p: Seq<char>|
                #[trigger] count_clue(views.take(i + 1), guess@, p) == count_clue(
                    views.take(i as int),
                    guess@,
                    p,
                ) + (if p == cl@ {
                    1nat
                } else {
                    0nat
                }) by {
                assert(views.take(i + 1).len() == i + 1);
                assert(count_clue(views.take(i + 1), guess@, p) == count_clue(
                    views.take(i + 1).drop_last(),
                    guess@,
                    p,
                ) + (if clue_spec(views.take(i + 1).last(), guess@) == p {
                    1nat
                } else {
                    0nat
                }));
            }
        }
        let ghost old_r = r@;
        let mut j: usize = 0;
        let mut found = false;
        while j < r.len()
            invariant_except_break
                !found,
            invariant
                j <= r@.len(),
                forall|t: int| 0 <= t < j ==> (#[trigger] r@[t]).0@ != cl@,
            ensures
                found ==> j < r@.len() && r@[j as int].0@ == cl@,
                !found ==> forall|t: int| 0 <= t < r@.len() ==> (#[trigger] r@[t]).0@ != cl@,
            decreases r@.len() - j,
        {
            if r[j].0 == cl {
                found = true;
                break ;
            }
            j += 1;
        }
        if found {
            let key = r[j].0.clone();
            let cnt = r[j].1;
            r.set(j, (key, cnt + 1));
            proof {
                assert(r@[j as int].0@ == cl@);
                assert forall|p: Seq<char>|
                    #[trigger] count_clue(views.take(i + 1), guess@, p) > 0 implies exists|k: int|
                    0 <= k < r@.len() && (#[trigger] r@[k]).0@ == p by {
                    if p != cl@ {
                        assert(count_clue(views.take(i as int), guess@, p) > 0);
                        let k = choose|k: int|
                            0 <= k < old_r.len() && (#[trigger] old_r[k]).0@ == p;
                        assert(r@[k].0@ == p);
                    } else {
                        assert(r@[j as int].0@ == p);
                    }
                }
            }
        } else {
            // The clue pattern is new: no earlier word produced it.
            proof {
                if count_clue(views.take(i as int), guess@, cl@) > 0 {
                    let k = choose|k: int|
                        0 <= k < r@.len() && (#[trigger] r@[k]).0@ == cl@;
                    assert(false);
                }
            }
            r.push((cl, 1));
            proof {
                assert forall|p: Seq<char>|
                    #[trigger] count_clue(views.take(i + 1), guess@, p) > 0 implies exists|k: int|
                    0 <= k < r@.len() && (#[trigger] r@[k]).0@ == p by {
                    if p != cl@ {
                        assert(count_clue(views.take(i as int), guess@, p) > 0);
                        let k = choose|k: int|
                            0 <= k < old_r.len() && (#[trigger] old_r[k]).0@ == p;
                        assert(r@[k].0@ == p);
                    } else {
                        assert(r@[old_r.len() as int].0@ == p);
                    }
                }
            }
        }
        i += 1;
    }
    proof {
        assert(views.take(word_set@.len() as int) =~= views);
        let keys = r@.map_values(|pr: (String, u64)| pr.0@);
        assert(keys.no_duplicates()) by {
            assert(forall|k1: int, k2: int|
                0 <= k1 < k2 < keys.len() ==> keys[k1] != keys[k2]);
        }
        keys.unique_seq_to_set();
        let pats = views.map_values(|w: Seq<char>| clue_spec(w, guess@));
        assert(keys.to_set() =~= pats.to_set()) by {
            assert forall|p: Seq<char>| keys.to_set().contains(p) implies pats.to_set().contains(
                p,
            ) by {
                let k = choose|k: int| 0 <= k < keys.len() && keys[k] == p;
                assert(r@[k].1 as nat == count_clue(views, guess@, p) && r@[k].1 >= 1);
                lemma_count_clue_pos(views, guess@, p);
                let t = choose|t: int|
                    0 <= t < views.len() && clue_spec(#[trigger] views[t], guess@) == p;
                assert(pats[t] == p);
            }
            assert forall|p: Seq<char>| pats.to_set().contains(p) implies keys.to_set().contains(
                p,
            ) by {
                let t = choose|t: int| 0 <= t < pats.len() && pats[t] == p;
                assert(clue_spec(views[t], guess@) == p);
                lemma_count_clue_pos(views, guess@, p);
                let k = choose|k: int| 0 <= k < r@.len() && (#[trigger] r@[k]).0@ == p;
                assert(keys[k] == p);
            }
        }
    }
    r
}

/// Whether the pool holds the guess itself.
pub fn contains_word(word_set: &Vec<String>, g: &str) -> (r: bool)
    ensures
        r == word_views(word_set@).contains(g@),
{
    let ghost views = word_views(word_set@);
    let gs = g.to_owned();
    let mut i: usize = 0;
    while i < word_set.len()
        invariant
            i <= word_set@.len(),
            views == word_views(word_set@),
            gs@ == g@,
            forall|k: int| 0 <= k < i ==> (#[trigger] views[k]) != g@,
        decreases word_set@.len() - i,
    {
        if word_set[i] == gs {
            proof {
                assert(views[i as int] == g@);
            }
            return true;
        }
        i += 1;
    }
    false
}

/// The running best after the scan has reached position `i` with the given
/// best score, best group count and best word: a guess displaces the best
/// when its score is strictly higher, or equal with strictly more groups,
/// or equal on both while the guess is itself a possible solution.
pub open spec fn select_from(
    universe: Seq<Seq<char>>,
    words: Seq<Seq<char>>,
    ent: Seq<u64>,
    i: int,
    best_e: u64,
    best_p: nat,
    best_w: Seq<char>,
) -> Seq<char>
    decreases universe.len() - i,
{
    if i < 0 || i >= universe.len() {
        best_w
    } else {
        let e = ent[i];
        let p = num_groups(words, universe[i]);
        if (e == best_e && p > best_p) || e > best_e || (e == best_e && p == best_p
            && words.contains(universe[i])) {
            select_from(universe, words, ent, i + 1, e, p, universe[i])
        } else {
            select_from(universe, words, ent, i + 1, best_e, best_p, best_w)
        }
    }
}

/// The guess the optimizer selects for the given pools and entropy scores.
pub open spec fn select_spec(universe: Seq<Seq<char>>, words: Seq<Seq<char>>, ent: Seq<u64>) -> Seq<
    char,
> {
    select_from(universe, words, ent, 0, 0, 0, Seq::empty())
}

/// Scan the whole universe of legal guesses and pick the best next guess.
/// `entropies[k]` must rank `universe[k]`: it is an order-preserving encoding
/// of the information score of that guess over the current pool, and the
/// scan applies the selection rule as a strict left-to-right fold.
pub fn select_guess(universe: &Vec<String>, word_set: &Vec<String>, entropies: &Vec<u64>) -> (r:
    String)
    requires
        entropies@.len() == universe@.len(),
        forall|k1: int, k2: int|
            0 <= k1 < word_set@.len() && 0 <= k2 < universe@.len() ==> (
            #[trigger] word_set@[k1])@.len() == (#[trigger] universe@[k2])@.len(),
    ensures
        r@ == select_spec(word_views(universe@), word_views(word_set@), entropies@),
{
    let ghost us = word_views(universe@);
    let ghost ws = word_views(word_set@);
    let mut best_e: u64 = 0;
    let mut best_p: usize = 0;
    let mut best_w: String = String::new();
    let mut i: usize = 0;
    while i < universe.len()
        invariant
            i <= universe@.len(),
            us == word_views(universe@),
            ws == word_views(word_set@),
            entropies@.len() == universe@.len(),
            forall|k1: int, k2: int|
                0 <= k1 < word_set@.len() && 0 <= k2 < universe@.len() ==> (
                #[trigger] word_set@[k1])@.len() == (#[trigger] universe@[k2])@.len(),
            select_from(us, ws, entropies@, i as int, best_e, best_p as nat, best_w@)
                == select_spec(us, ws, entropies@),
        decreases universe@.len() - i,
    {
        let groups = clue_groups(word_set, universe[i].as_str());
        let p = groups.len();
        let e = entropies[i];
        let in_set = contains_word(word_set, universe[i].as_str());
        proof {
            assert(universe@[i as int]@ == us[i as int]);
            assert(p as nat == num_groups(ws, us[i as int]));
            assert(in_set == ws.contains(us[i as int]));
        }
        if (e == best_e && p > best_p) || e > best_e || (e == best_e && p == best_p && in_set) {
            best_e = e;
            best_p = p;
            best_w = universe[i].clone();
        }
        i += 1;
    }
    best_w
}

/// Law: guess selection is stable. The selected guess is a function of the
/// universe, the candidate pool and the scores alone, so two selections over
/// identical inputs return the identical guess.
pub proof fn lemma_select_guess_stable(
    universe: Seq<Seq<char>>,
    words: Seq<Seq<char>>,
    ent: Seq<u64>,
    r1: Seq<char>,
    r2: Seq<char>,
)
    requires
        r1 == select_spec(universe, words, ent),
        r2 == select_spec(universe, words, ent),
    ensures
        r1 == r2,
{
}

} // verus!

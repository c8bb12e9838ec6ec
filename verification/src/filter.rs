use vstd::prelude::*;

use crate::clue::{
    clue_spec, exact_clue, exact_goal, find_first, find_first_exec, lemma_find_from,
    lemma_mark_present_clue_pointwise, lemma_mark_present_work_pointwise, mark_present,
};
use crate::strings::str_to_chars;

verus! {

/// Exact-position check: every position the clue marks 'G' must hold the
/// guess character, and each such position is consumed. Returns the word
/// with consumed positions blanked, or `None` when the word is inconsistent.
pub open spec fn g_pass(word: Seq<char>, guess: Seq<char>, clue: Seq<char>, i: int) -> Option<
    Seq<char>,
>
    decreases clue.len() - i,
{
    if i < 0 || i >= clue.len() {
        Some(word)
    } else if clue[i] == 'G' {
        if guess[i] == word[i] {
            g_pass(word.update(i, ' '), guess, clue, i + 1)
        } else {
            None
        }
    } else {
        g_pass(word, guess, clue, i + 1)
    }
}

/// Present-but-misplaced check: every position the clue marks 'Y' must not
/// hold the guess character itself, and the guess character must occur among
/// the word's remaining characters; the first such occurrence is consumed.
pub open spec fn y_pass(word: Seq<char>, guess: Seq<char>, clue: Seq<char>, i: int) -> Option<
    Seq<char>,
>
    decreases clue.len() - i,
{
    if i < 0 || i >= clue.len() {
        Some(word)
    } else if clue[i] == 'Y' {
        if guess[i] == word[i] {
            None
        } else {
            let j = find_first(word, guess[i]);
            if j < 0 {
                None
            } else if j == i {
                None
            } else {
                y_pass(word.update(j, ' '), guess, clue, i + 1)
            }
        }
    } else {
        y_pass(word, guess, clue, i + 1)
    }
}

/// Absent check: a character the clue marks ' ' must not occur among the
/// word's remaining characters at all.
pub open spec fn blank_pass(word: Seq<char>, guess: Seq<char>, clue: Seq<char>, i: int) -> bool
    decreases clue.len() - i,
{
    if i < 0 || i >= clue.len() {
        true
    } else if clue[i] == ' ' {
        if find_first(word, guess[i]) >= 0 {
            false
        } else {
            blank_pass(word, guess, clue, i + 1)
        }
    } else {
        blank_pass(word, guess, clue, i + 1)
    }
}

/// Whether a candidate word could have produced exactly this clue for this
/// guess: the three checks run in order, each consuming matched positions so
/// that repeated characters are handled as the clue computation handles them.
pub open spec fn consistent(word: Seq<char>, guess: Seq<char>, clue: Seq<char>) -> bool {
    match g_pass(word, guess, clue, 0) {
        None => false,
        Some(w1) => match y_pass(w1, guess, clue, 0) {
            None => false,
            Some(w2) => blank_pass(w2, guess, clue, 0),
        },
    }
}

/// The subsequence of `words` consistent with the observed (guess, clue) pair.
pub open spec fn filter_consistent(
    words: Seq<Seq<char>>,
    guess: Seq<char>,
    clue: Seq<char>,
) -> Seq<Seq<char>>
    decreases words.len(),
{
    if words.len() == 0 {
        Seq::empty()
    } else {
        let rest = filter_consistent(words.drop_last(), guess, clue);
        if consistent(words.last(), guess, clue) {
            rest.push(words.last())
        } else {
            rest
        }
    }
}

/// Executable consistency check for one candidate word, mirroring the three
/// ordered passes of the specification.
pub fn is_consistent(word: Vec<char>, guess: &Vec<char>, clue: &Vec<char>) -> (r: bool)
    requires
        word@.len() == guess@.len(),
        clue@.len() == guess@.len(),
    ensures
        r == consistent(word@, guess@, clue@),
{
    let ghost word0 = word@;
    let mut w = word;
    let n = clue.len();
    let mut i: usize = 0;
    while i < n
        invariant
            n == clue@.len(),
            guess@.len() == n,
            w@.len() == n,
            i <= n,
            word0 == word@,
            g_pass(w@, guess@, clue@, i as int) == g_pass(word0, guess@, clue@, 0),
        decreases n - i,
    {
        if clue[i] == 'G' {
            if guess[i] == w[i] {
                w.set(i, ' ');
            } else {
                return false;
            }
        }
        i += 1;
    }
    let ghost w1 = w@;
    let mut i: usize = 0;
    while i < n
        invariant
            n == clue@.len(),
            guess@.len() == n,
            w@.len() == n,
            i <= n,
            word0 == word@,
            g_pass(word0, guess@, clue@, 0) == Some(w1),
            y_pass(w@, guess@, clue@, i as int) == y_pass(w1, guess@, clue@, 0),
        decreases n - i,
    {
        if clue[i] == 'Y' {
            if guess[i] == w[i] {
                return false;
            }
            match find_first_exec(&w, guess[i]) {
                None => {
                    return false;
                },
                Some(j) => {
                    if j == i {
                        return false;
                    }
                    w.set(j, ' ');
                },
            }
        }
        i += 1;
    }
    let ghost w2 = w@;
    let mut i: usize = 0;
    while i < n
        invariant
            n == clue@.len(),
            guess@.len() == n,
            w@.len() == n,
            i <= n,
            word0 == word@,
            w@ == w2,
            g_pass(word0, guess@, clue@, 0) == Some(w1),
            y_pass(w1, guess@, clue@, 0) == Some(w2),
            blank_pass(w2, guess@, clue@, i as int) == blank_pass(w2, guess@, clue@, 0),
        decreases n - i,
    {
        if clue[i] == ' ' {
            match find_first_exec(&w, guess[i]) {
                Some(_) => {
                    return false;
                },
                None => {},
            }
        }
        i += 1;
    }
    true
}

/// Shrink the candidate pool to the words consistent with the clue observed
/// for `guess`: the surviving words, in their original order, are exactly
/// those that pass the three consistency checks.
pub fn remove(word_set: &mut Vec<String>, guess: &str, clue: &str)
    requires
        guess@.len() == clue@.len(),
        forall|k: int|
            0 <= k < old(word_set)@.len() ==> (#[trigger] old(word_set)@[k])@.len()
                == guess@.len(),
        forall|j: int| 0 <= j < clue@.len() ==> clue@[j] == 'G' || clue@[j] == 'Y' || clue@[j] == ' ',
    ensures
        final(word_set)@.map_values(|s: String| s@) == filter_consistent(
            old(word_set)@.map_values(|s: String| s@),
            guess@,
            clue@,
        ),
{
    let ghost ws0 = word_set@.map_values(|s: String| s@);
    let guess_chars = str_to_chars(guess);
    let clue_chars = str_to_chars(clue);
    let mut kept: Vec<String> = Vec::new();
    let mut i: usize = 0;
    while i < word_set.len()
        invariant
            word_set@ == old(word_set)@,
            ws0 == word_set@.map_values(|s: String| s@),
            guess_chars@ == guess@,
            clue_chars@ == clue@,
            guess@.len() == clue@.len(),
            forall|k: int|
                0 <= k < word_set@.len() ==> (#[trigger] word_set@[k])@.len() == guess@.len(),
            i <= word_set@.len(),
            kept@.map_values(|s: String| s@) == filter_consistent(
                ws0.take(i as int),
                guess@,
                clue@,
            ),
        decreases word_set@.len() - i,
    {
        let ghost prev = kept@.map_values(|s: String| s@);
        let wc = str_to_chars(word_set[i].as_str());
        if is_consistent(wc, &guess_chars, &clue_chars) {
            kept.push(word_set[i].clone());
            proof {
                assert(kept@.map_values(|s: String| s@) =~= prev.push(word_set@[i as int]@));
            }
        }
        proof {
            assert(ws0.take(i + 1).drop_last() =~= ws0.take(i as int));
            assert(ws0.take(i + 1).last() == word_set@[i as int]@);
        }
        i += 1;
    }
    proof {
        assert(ws0.take(word_set@.len() as int) =~= ws0);
    }
    *word_set = kept;
}

proof fn lemma_filter_all_consistent(words: Seq<Seq<char>>, guess: Seq<char>, clue: Seq<char>)
    ensures
        forall|k: int|
            0 <= k < filter_consistent(words, guess, clue).len() ==> consistent(
                #[trigger] filter_consistent(words, guess, clue)[k],
                guess,
                clue,
            ),
    decreases words.len(),
{
    if words.len() > 0 {
        lemma_filter_all_consistent(words.drop_last(), guess, clue);
        let rest = filter_consistent(words.drop_last(), guess, clue);
        let all = filter_consistent(words, guess, clue);
        assert forall|k: int| 0 <= k < all.len() implies consistent(all[k], guess, clue) by {
            if consistent(words.last(), guess, clue) {
                if k < rest.len() {
                    assert(all[k] == rest[k]);
                } else {
                    assert(all[k] == words.last());
                }
            } else {
                assert(all[k] == rest[k]);
            }
        }
    }
}

proof fn lemma_filter_of_consistent_identity(
    words: Seq<Seq<char>>,
    guess: Seq<char>,
    clue: Seq<char>,
)
    requires
        forall|k: int| 0 <= k < words.len() ==> consistent(#[trigger] words[k], guess, clue),
    ensures
        filter_consistent(words, guess, clue) == words,
    decreases words.len(),
{
    if words.len() > 0 {
        lemma_filter_of_consistent_identity(words.drop_last(), guess, clue);
        assert(words.drop_last().push(words.last()) =~= words);
    }
}

/// Law: filtering an already-filtered pool with the same guess and clue
/// removes nothing further.
pub proof fn lemma_filter_idempotent(words: Seq<Seq<char>>, guess: Seq<char>, clue: Seq<char>)
    ensures
        filter_consistent(filter_consistent(words, guess, clue), guess, clue) == filter_consistent(
            words,
            guess,
            clue,
        ),
{
    lemma_filter_all_consistent(words, guess, clue);
    lemma_filter_of_consistent_identity(filter_consistent(words, guess, clue), guess, clue);
}

/// The word with the exact-check consumptions applied from position `i` on:
/// every later position the clue marks 'G' is blanked.
spec fn blank_g(word: Seq<char>, clue: Seq<char>, i: int) -> Seq<char> {
    Seq::new(
        word.len(),
        |k: int|
            if k >= i && clue[k] == 'G' {
                ' '
            } else {
                word[k]
            },
    )
}

proof fn lemma_g_pass_blanks(word: Seq<char>, guess: Seq<char>, clue: Seq<char>, i: int)
    requires
        clue.len() == guess.len(),
        word.len() == guess.len(),
        i >= 0,
        forall|k: int| i <= k < clue.len() && clue[k] == 'G' ==> word[k] == guess[k],
    ensures
        g_pass(word, guess, clue, i) == Some(blank_g(word, clue, i)),
    decreases guess.len() - i,
{
    if i >= clue.len() {
        assert(blank_g(word, clue, i) =~= word);
    } else if clue[i] == 'G' {
        let word1 = word.update(i, ' ');
        lemma_g_pass_blanks(word1, guess, clue, i + 1);
        assert(blank_g(word1, clue, i + 1) =~= blank_g(word, clue, i));
    } else {
        lemma_g_pass_blanks(word, guess, clue, i + 1);
        assert(blank_g(word, clue, i + 1) =~= blank_g(word, clue, i));
    }
}

proof fn lemma_blank_pass_holds(word: Seq<char>, guess: Seq<char>, clue: Seq<char>, i: int)
    requires
        i >= 0,
        forall|k: int| i <= k < clue.len() && clue[k] == ' ' ==> find_first(word, guess[k]) == -1,
    ensures
        blank_pass(word, guess, clue, i),
    decreases clue.len() - i,
{
    if 0 <= i < clue.len() {
        lemma_blank_pass_holds(word, guess, clue, i + 1);
    }
}

/// The present-check of the filter replays the clue computation's second
/// pass: run on the same working word, it consumes the same occurrences,
/// never rejects, and leaves every unmarked guess character absent from the
/// final working word.
proof fn lemma_passes_simulate(work: Seq<char>, guess: Seq<char>, clue_p: Seq<char>, i: int)
    requires
        clue_p.len() == guess.len(),
        work.len() == guess.len(),
        i >= 0,
        forall|k: int| 0 <= k < guess.len() ==> guess[k] != ' ',
        forall|k: int| i <= k < clue_p.len() ==> clue_p[k] != 'Y',
        forall|k: int| i <= k < clue_p.len() && clue_p[k] == ' ' ==> work[k] != guess[k],
    ensures
        y_pass(work, guess, mark_present(work, guess, clue_p, i).0, i) == Some(
            mark_present(work, guess, clue_p, i).1,
        ),
        forall|k: int|
            i <= k < clue_p.len() && mark_present(work, guess, clue_p, i).0[k] == ' '
                ==> find_first(mark_present(work, guess, clue_p, i).1, guess[k])
                == -1,
    decreases guess.len() - i,
{
    let fc = mark_present(work, guess, clue_p, i).0;
    let fg = mark_present(work, guess, clue_p, i).1;
    lemma_mark_present_clue_pointwise(work, guess, clue_p, i);
    if 0 <= i < guess.len() {
        if clue_p[i] == ' ' {
            let j = find_first(work, guess[i]);
            lemma_find_from(work, guess[i], 0);
            if j >= 0 {
                let work1 = work.update(j, ' ');
                let clue1 = clue_p.update(i, 'Y');
                assert forall|k: int|
                    i + 1 <= k < clue1.len() && clue1[k] == ' ' implies work1[k] != guess[k] by {
                    if k == j {
                        assert(work1[j] == ' ');
                    }
                }
                lemma_passes_simulate(work1, guess, clue1, i + 1);
                lemma_mark_present_clue_pointwise(work1, guess, clue1, i + 1);
                assert(mark_present(work, guess, clue_p, i) == mark_present(
                    work1,
                    guess,
                    clue1,
                    i + 1,
                ));
                // The final clue keeps the 'Y' written at position i, so the
                // filter's check takes the consuming branch with the same j.
                assert(mark_present(work1, guess, clue1, i + 1).0[i] == clue1[i] || (clue1[i]
                    == ' ' && i >= i + 1 && mark_present(work1, guess, clue1, i + 1).0[i] == 'Y'));
                assert(fc[i] == 'Y');
                assert(work[i] != guess[i]);
                assert(work[j] == guess[i]);
                assert(j != i);
            } else {
                lemma_passes_simulate(work, guess, clue_p, i + 1);
                lemma_mark_present_clue_pointwise(work, guess, clue_p, i + 1);
                lemma_mark_present_work_pointwise(work, guess, clue_p, i + 1);
                assert(mark_present(work, guess, clue_p, i) == mark_present(
                    work,
                    guess,
                    clue_p,
                    i + 1,
                ));
                assert(mark_present(work, guess, clue_p, i + 1).0[i] == clue_p[i] || (clue_p[i]
                    == ' ' && i >= i + 1 && mark_present(work, guess, clue_p, i + 1).0[i] == 'Y'));
                assert(fc[i] == ' ');
                // The guess character occurs nowhere in the working word, so
                // it occurs nowhere in the further-consumed final word.
                assert forall|k: int| 0 <= k < fg.len() implies fg[k] != guess[i] by {
                    assert(mark_present(work, guess, clue_p, i + 1).1[k] == work[k]
                        || mark_present(work, guess, clue_p, i + 1).1[k] == ' ');
                    assert(fg[k] == work[k] || fg[k] == ' ');
                }
                lemma_find_from(fg, guess[i], 0);
            }
        } else {
            lemma_passes_simulate(work, guess, clue_p, i + 1);
            lemma_mark_present_clue_pointwise(work, guess, clue_p, i + 1);
            assert(fc[i] == clue_p[i]);
        }
    }
}

/// Law: a goal is always consistent with the clue it yields against any
/// guess, so filtering the pool by an observed clue never removes the true
/// solution. The puzzle alphabet excludes the consumption sentinel, hence
/// the premise on the two words.
pub proof fn lemma_goal_survives_filter(goal: Seq<char>, guess: Seq<char>)
    requires
        goal.len() == guess.len(),
        forall|k: int| 0 <= k < goal.len() ==> goal[k] != ' ',
        forall|k: int| 0 <= k < guess.len() ==> guess[k] != ' ',
    ensures
        consistent(goal, guess, clue_spec(goal, guess)),
{
    let clue0 = exact_clue(goal, guess);
    let goal0 = exact_goal(goal, guess);
    let fc = clue_spec(goal, guess);
    let fg = mark_present(goal0, guess, clue0, 0).1;
    lemma_mark_present_clue_pointwise(goal0, guess, clue0, 0);
    // A final 'G' is exactly a first-pass 'G', which is an exact match.
    assert forall|k: int| 0 <= k < fc.len() && fc[k] == 'G' implies goal[k] == guess[k] by {
        assert(clue0[k] == 'G');
    }
    lemma_g_pass_blanks(goal, guess, fc, 0);
    assert(blank_g(goal, fc, 0) =~= goal0) by {
        assert forall|k: int| 0 <= k < goal.len() implies blank_g(goal, fc, 0)[k] == goal0[k] by {
            if clue0[k] == 'G' {
                assert(fc[k] == clue0[k] || (clue0[k] == ' ' && fc[k] == 'Y'));
            }
        }
    }
    lemma_passes_simulate(goal0, guess, clue0, 0);
    lemma_blank_pass_holds(fg, guess, fc, 0);
}

/// Law: filtering only removes. The surviving pool is a subset of the
/// original, so the candidate set shrinks monotonically over a session.
pub proof fn lemma_filter_shrinks(words: Seq<Seq<char>>, guess: Seq<char>, clue: Seq<char>)
    ensures
        filter_consistent(words, guess, clue).len() <= words.len(),
        forall|k: int|
            0 <= k < filter_consistent(words, guess, clue).len() ==> words.contains(
                #[trigger] filter_consistent(words, guess, clue)[k],
            ),
    decreases words.len(),
{
    if words.len() > 0 {
        lemma_filter_shrinks(words.drop_last(), guess, clue);
        let rest = filter_consistent(words.drop_last(), guess, clue);
        let all = filter_consistent(words, guess, clue);
        assert forall|k: int| 0 <= k < all.len() implies words.contains(all[k]) by {
            if k < rest.len() {
                assert(all[k] == rest[k]);
                assert(words.drop_last().contains(rest[k]));
                let t = choose|t: int|
                    0 <= t < words.drop_last().len() && words.drop_last()[t] == rest[k];
                assert(words[t] == all[k]);
            } else {
                assert(all[k] == words.last());
                assert(words[words.len() - 1] == all[k]);
            }
        }
    }
}

/// Law: a pool without duplicates stays without duplicates when filtered.
pub proof fn lemma_filter_keeps_distinct(words: Seq<Seq<char>>, guess: Seq<char>, clue: Seq<char>)
    requires
        forall|k1: int, k2: int| 0 <= k1 < k2 < words.len() ==> words[k1] != words[k2],
    ensures
        forall|k1: int, k2: int|
            0 <= k1 < k2 < filter_consistent(words, guess, clue).len() ==> filter_consistent(
                words,
                guess,
                clue,
            )[k1] != filter_consistent(words, guess, clue)[k2],
    decreases words.len(),
{
    if words.len() > 0 {
        assert forall|k1: int, k2: int|
            0 <= k1 < k2 < words.drop_last().len() implies words.drop_last()[k1]
            != words.drop_last()[k2] by {
            assert(words[k1] == words.drop_last()[k1]);
            assert(words[k2] == words.drop_last()[k2]);
        }
        lemma_filter_keeps_distinct(words.drop_last(), guess, clue);
        lemma_filter_shrinks(words.drop_last(), guess, clue);
        let rest = filter_consistent(words.drop_last(), guess, clue);
        let all = filter_consistent(words, guess, clue);
        assert forall|k1: int, k2: int| 0 <= k1 < k2 < all.len() implies all[k1] != all[k2] by {
            if k2 < rest.len() {
                assert(all[k1] == rest[k1] && all[k2] == rest[k2]);
            } else if k2 == rest.len() && consistent(words.last(), guess, clue) {
                assert(all[k1] == rest[k1] && all[k2] == words.last());
                assert(words.drop_last().contains(rest[k1]));
                let t = choose|t: int|
                    0 <= t < words.drop_last().len() && words.drop_last()[t] == rest[k1];
                assert(words[t] == rest[k1]);
                assert(words[words.len() - 1] == words.last());
            }
        }
    }
}

/// Outcome of a round after filtering: an empty pool means the observed
/// clues are mutually inconsistent and the session has failed; a singleton
/// pool means the puzzle is solved.
pub enum SessionState {
    Failed,
    Solved,
    Ongoing,
}

pub fn session_state(word_set: &Vec<String>) -> (r: SessionState)
    ensures
        word_set@.len() == 0 ==> r is Failed,
        word_set@.len() == 1 ==> r is Solved,
        word_set@.len() > 1 ==> r is Ongoing,
{
    if word_set.len() == 0 {
        SessionState::Failed
    } else if word_set.len() == 1 {
        SessionState::Solved
    } else {
        SessionState::Ongoing
    }
}

} // verus!

use vstd::prelude::*;

use crate::alphabet::{
    char_index, is_nerdle_char, is_operator, lemma_char_index_roundtrip,
    lemma_nerdle_char_roundtrip, nerdle_char, nerdle_char_at,
};

verus! {

/// Powers of the alphabet size: the number of raw fragments of a given length.
pub open spec fn pow14(d: nat) -> nat
    decreases d,
{
    if d == 0 {
        1
    } else {
        14 * pow14((d - 1) as nat)
    }
}

pub proof fn lemma_pow14_monotone(a: nat, b: nat)
    requires
        a <= b,
    ensures
        pow14(a) <= pow14(b),
    decreases b,
{
    if a < b {
        lemma_pow14_monotone(a, (b - 1) as nat);
        assert(pow14(b) == 14 * pow14((b - 1) as nat));
    }
}

pub proof fn lemma_pow14_16_value()
    ensures
        pow14(16) == 2177953337809371136,
{
    reveal_with_fuel(pow14, 17);
}

/// The fragment spelled by counter value `n`, least significant symbol first.
pub open spec fn base14_digits(n: nat, d: nat) -> Seq<char>
    decreases d,
{
    if d == 0 {
        Seq::empty()
    } else {
        seq![nerdle_char((n % 14) as int)] + base14_digits(n / 14, (d - 1) as nat)
    }
}

/// The counter value that spells a fragment.
pub open spec fn encode14(s: Seq<char>) -> int
    decreases s.len(),
{
    if s.len() == 0 {
        0
    } else {
        char_index(s[0]) + 14 * encode14(s.drop_first())
    }
}

pub open spec fn all_nerdle(s: Seq<char>) -> bool {
    forall|i: int| 0 <= i < s.len() ==> is_nerdle_char(#[trigger] s[i])
}

pub proof fn lemma_base14_digits_props(n: nat, d: nat)
    ensures
        base14_digits(n, d).len() == d,
        all_nerdle(base14_digits(n, d)),
    decreases d,
{
    if d > 0 {
        lemma_nerdle_char_roundtrip((n % 14) as int);
        lemma_base14_digits_props(n / 14, (d - 1) as nat);
        let s = base14_digits(n, d);
        let rest = base14_digits(n / 14, (d - 1) as nat);
        assert forall|i: int| 0 <= i < s.len() implies is_nerdle_char(s[i]) by {
            if i > 0 {
                assert(s[i] == rest[i - 1]);
            }
        }
    }
}

/// A fragment is within the counter's range.
pub proof fn lemma_encode14_bounds(s: Seq<char>)
    requires
        all_nerdle(s),
    ensures
        0 <= encode14(s) < pow14(s.len()),
    decreases s.len(),
{
    if s.len() > 0 {
        assert(all_nerdle(s.drop_first())) by {
            assert(forall|i: int|
                0 <= i < s.drop_first().len() ==> #[trigger] s.drop_first()[i] == s[i + 1]);
        }
        lemma_encode14_bounds(s.drop_first());
        lemma_char_index_roundtrip(s[0]);
    }
}

/// The counter reproduces every fragment it encodes: decoding after encoding
/// is the identity on fragments over the alphabet.
pub proof fn lemma_decode_encode(s: Seq<char>)
    requires
        all_nerdle(s),
    ensures
        base14_digits(encode14(s) as nat, s.len()) == s,
    decreases s.len(),
{
    if s.len() > 0 {
        let rest = s.drop_first();
        assert(all_nerdle(rest)) by {
            assert(forall|i: int| 0 <= i < rest.len() ==> #[trigger] rest[i] == s[i + 1]);
        }
        lemma_decode_encode(rest);
        lemma_encode14_bounds(rest);
        lemma_char_index_roundtrip(s[0]);
        let n = encode14(s);
        assert(n == char_index(s[0]) + 14 * encode14(rest));
        assert(n % 14 == char_index(s[0]) && n / 14 == encode14(rest)) by {
            vstd::arithmetic::div_mod::lemma_fundamental_div_mod_converse(
                n,
                14,
                encode14(rest),
                char_index(s[0]),
            );
        }
        assert(base14_digits(n as nat, s.len()) =~= s);
    }
}

/// Walks every raw fragment of a fixed length over the puzzle alphabet, in
/// base-14 counting order: a flat counter is mapped onto the alphabet by
/// repeated remainder and quotient, so a fresh walker reproduces the same
/// finite sequence from the start.
pub struct CharWalker {
    pub curr: u64,
    pub digits: usize,
    pub max: u64,
}

impl CharWalker {
    /// The walker is mid-scan with a counter within range.
    pub open spec fn wf(&self) -> bool {
        &&& self.digits <= 16
        &&& self.max as nat == pow14(self.digits as nat)
        &&& self.curr <= self.max
    }

    /// Whether a fragment starts an operand with a zero or chains two
    /// operator symbols: arithmetic such as `04*-7` may be evaluable, but it
    /// is not a legal puzzle string. A fragment is scanned left to right; at
    /// the start and right after an operator, neither a zero nor another
    /// operator may stand.
    pub fn leading_zeros_double_signs(raw: &Vec<char>) -> (r: bool)
        ensures
            r == bad_grammar(raw@),
    {
        let mut leading = true;
        let mut i: usize = 0;
        while i < raw.len()
            invariant
                i <= raw@.len(),
                bad_grammar_from(raw@, i as int, leading) == bad_grammar(raw@),
            decreases raw@.len() - i,
        {
            let c = raw[i];
            if leading && (c == '0' || c == '+' || c == '-' || c == '*' || c == '/') {
                return true;
            } else if c == '+' || c == '-' || c == '*' || c == '/' {
                leading = true;
            } else {
                leading = false;
            }
            i += 1;
        }
        false
    }

    /// Produce the fragment at the current counter, or `None` when the scan
    /// is exhausted, and advance.
    pub fn next(&mut self) -> (r: Option<Vec<char>>)
        requires
            old(self).wf(),
        ensures
            final(self).wf(),
            final(self).digits == old(self).digits,
            final(self).max == old(self).max,
            old(self).curr == old(self).max ==> r is None && final(self).curr == old(self).curr,
            old(self).curr < old(self).max ==> final(self).curr == old(self).curr + 1 && (
            r matches Some(v) && v@ == base14_digits(
                old(self).curr as nat,
                old(self).digits as nat,
            )),
    {
        if self.curr == self.max {
            None
        } else {
            let ghost n0 = self.curr as nat;
            let mut it = self.curr;
            let mut next_str: Vec<char> = Vec::new();
            let mut k: usize = 0;
            while k < self.digits
                invariant
                    k <= self.digits,
                    next_str@.len() == k,
                    next_str@ + base14_digits(it as nat, (self.digits - k) as nat)
                        == base14_digits(n0, self.digits as nat),
                decreases self.digits - k,
            {
                let d = (it % 14) as usize;
                let ghost prev = next_str@;
                let ghost it_prev = it as nat;
                next_str.push(nerdle_char_at(d));
                it = it / 14;
                k += 1;
                proof {
                    assert(base14_digits(it_prev, (self.digits - k + 1) as nat) == seq![
                        nerdle_char((it_prev % 14) as int),
                    ] + base14_digits(it_prev / 14, (self.digits - k) as nat));
                    assert(next_str@ + base14_digits(it as nat, (self.digits - k) as nat) =~= prev
                        + base14_digits(it_prev, (self.digits - k + 1) as nat));
                }
            }
            proof {
                assert(base14_digits(it as nat, 0) =~= Seq::<char>::empty());
                assert(next_str@ + Seq::<char>::empty() =~= next_str@);
            }
            self.curr = self.curr + 1;
            Some(next_str)
        }
    }
}

/// The grammar scan from position `i` on, `leading` telling whether the
/// previous symbol (or the start of the fragment) opens an operand.
pub open spec fn bad_grammar_from(s: Seq<char>, i: int, leading: bool) -> bool
    decreases s.len() - i,
{
    if i < 0 || i >= s.len() {
        false
    } else if leading && (s[i] == '0' || is_operator(s[i])) {
        true
    } else {
        bad_grammar_from(s, i + 1, is_operator(s[i]))
    }
}

/// A fragment with a leading zero in an operand or two adjacent operators.
pub open spec fn bad_grammar(s: Seq<char>) -> bool {
    bad_grammar_from(s, 0, true)
}

/// A fresh walker over all fragments of length `d`.
pub fn char_walker(d: usize) -> (w: CharWalker)
    requires
        d <= 16,
    ensures
        w.wf(),
        w.curr == 0,
        w.digits == d,
{
    let mut acc: u64 = 1;
    let mut i: usize = 0;
    while i < d
        invariant
            i <= d <= 16,
            acc as nat == pow14(i as nat),
        decreases d - i,
    {
        proof {
            lemma_pow14_monotone(i as nat + 1, 16);
            lemma_pow14_16_value();
        }
        acc = acc * 14;
        i += 1;
    }
    CharWalker { curr: 0, digits: d, max: acc }
}

} // verus!

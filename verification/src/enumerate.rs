use vstd::prelude::*;

use crate::alphabet::{all_digit_chars, is_digit_char_exec, is_nerdle_char};
use crate::strings::{chars_to_string, str_to_chars};
use crate::walker::{
    all_nerdle, bad_grammar, base14_digits, char_walker, encode14, lemma_base14_digits_props,
    lemma_decode_encode, lemma_encode14_bounds, pow14, CharWalker,
};

verus! {

/// Names the outcome of evaluating a fragment: the decimal rendering of the
/// numeric value the arithmetic evaluator computes for it, or `None` when
/// the fragment does not evaluate. The outcome is a function of the
/// fragment's characters alone.
pub uninterp spec fn eval_repr(s: Seq<char>) -> Option<Seq<char>>;

/// Relies on `equation::evaluate` (crate `equation`): parses a string as an
/// arithmetic expression and returns its numeric value, or a parse error.
/// Only strings over the puzzle alphabet are admitted: on digits and
/// `+ - * /` the evaluation is exact IEEE arithmetic, so the outcome depends
/// on the input string alone (the crate's wider grammar also accepts powers
/// and trigonometric calls, whose float precision is platform-dependent).
/// The value is rendered by the standard decimal display of the numeric
/// type: a nonnegative integral value renders as plain digits with no
/// leading zero; any other value shows a sign, a point or letters.
#[verifier::external_body]
fn evaluate_decimal(s: &str) -> (r: Option<String>)
    requires
        all_nerdle(s@),
    ensures
        r is Some <==> eval_repr(s@) is Some,
        r matches Some(v) ==> eval_repr(s@) == Some(v@),
        r matches Some(v) ==> (v@.len() > 1 && all_digit_chars(v@) ==> v@[0] != '0'),
{
    match equation::evaluate(s) {
        Ok(value) => Some(format!("{}", value)),
        Err(_) => None,
    }
}

/// Membership in one width bucket of the universe: the string is a legal
/// fragment, an `=`, and a `width`-digit rendering of exactly the value the
/// fragment evaluates to.
pub open spec fn bucket_member(w: Seq<char>, length: nat, width: nat) -> bool {
    &&& 1 <= width <= 3
    &&& width + 2 <= length
    &&& w.len() == length
    &&& {
        let lhs = length - 1 - width;
        &&& w[lhs as int] == '='
        &&& all_nerdle(w.take(lhs as int))
        &&& !bad_grammar(w.take(lhs as int))
        &&& all_digit_chars(w.skip(lhs as int + 1))
        &&& (width > 1 ==> w[lhs as int + 1] != '0')
        &&& eval_repr(w.take(lhs as int)) == Some(w.skip(lhs as int + 1))
    }
}

/// The universe of valid equation strings of a given length: a legal
/// fragment, `=`, and a one-, two- or three-digit right-hand side that the
/// fragment evaluates to exactly.
pub open spec fn in_universe(w: Seq<char>, length: nat) -> bool {
    ||| bucket_member(w, length, 1)
    ||| bucket_member(w, length, 2)
    ||| bucket_member(w, length, 3)
}

fn all_digits_exec(v: &Vec<char>) -> (r: bool)
    ensures
        r == all_digit_chars(v@),
{
    let mut i: usize = 0;
    while i < v.len()
        invariant
            i <= v@.len(),
            forall|k: int| 0 <= k < i ==> crate::alphabet::is_digit_char(#[trigger] v@[k]),
        decreases v@.len() - i,
    {
        if !is_digit_char_exec(v[i]) {
            return false;
        }
        i += 1;
    }
    true
}

/// Scan one width bucket: walk every raw fragment of the bucket's length,
/// prune fragments with a leading zero or doubled operator before
/// evaluating, evaluate the survivors, and keep those whose value renders as
/// exactly `width` digits. The result holds each valid equation of the
/// bucket exactly once.
pub fn scan_size(length: usize, width: usize) -> (r: Vec<String>)
    requires
        1 <= width <= 3,
        width + 2 <= length <= 18,
    ensures
        forall|k: int|
            0 <= k < r@.len() ==> bucket_member((#[trigger] r@[k])@, length as nat, width as nat),
        forall|w: Seq<char>|
            #[trigger] bucket_member(w, length as nat, width as nat) ==> exists|k: int|
                0 <= k < r@.len() && (#[trigger] r@[k])@ == w,
        forall|k1: int, k2: int| 0 <= k1 < k2 < r@.len() ==> r@[k1]@ != r@[k2]@,
{
    let lhs_len = length - 1 - width;
    let ghost lhs = lhs_len as int;
    let mut walker = char_walker(lhs_len);
    let mut out: Vec<String> = Vec::new();
    proof {
        assert forall|w: Seq<char>|
            #[trigger] bucket_member(w, length as nat, width as nat) implies encode14(w.take(lhs))
            >= 0 by {
            assert(w.take(lhs).len() == lhs);
            lemma_encode14_bounds(w.take(lhs));
        }
    }
    loop
        invariant
            walker.wf(),
            walker.digits == lhs_len,
            lhs == lhs_len as int,
            lhs_len + 1 + width == length,
            1 <= width <= 3,
            width + 2 <= length <= 18,
            forall|k: int|
                0 <= k < out@.len() ==> bucket_member(
                    (#[trigger] out@[k])@,
                    length as nat,
                    width as nat,
                ),
            forall|k: int|
                0 <= k < out@.len() ==> 0 <= encode14((#[trigger] out@[k])@.take(lhs))
                    < walker.curr,
            forall|w: Seq<char>|
                #[trigger] bucket_member(w, length as nat, width as nat) && encode14(w.take(lhs))
                    < walker.curr ==> exists|k: int|
                    0 <= k < out@.len() && (#[trigger] out@[k])@ == w,
            forall|k1: int, k2: int| 0 <= k1 < k2 < out@.len() ==> out@[k1]@ != out@[k2]@,
        ensures
            walker.curr == walker.max,
            walker.max as nat == pow14(lhs_len as nat),
            forall|k: int|
                0 <= k < out@.len() ==> bucket_member(
                    (#[trigger] out@[k])@,
                    length as nat,
                    width as nat,
                ),
            forall|w: Seq<char>|
                #[trigger] bucket_member(w, length as nat, width as nat) && encode14(w.take(lhs))
                    < walker.curr ==> exists|k: int|
                    0 <= k < out@.len() && (#[trigger] out@[k])@ == w,
            forall|k1: int, k2: int| 0 <= k1 < k2 < out@.len() ==> out@[k1]@ != out@[k2]@,
        decreases walker.max - walker.curr,
    {
        let ghost n = walker.curr as nat;
        let frag_opt = walker.next();
        match frag_opt {
            None => {
                break ;
            },
            Some(frag) => {
                proof {
                    lemma_base14_digits_props(n, lhs_len as nat);
                }
                let ghost fragv = base14_digits(n, lhs_len as nat);
                let ghost old_out = out@;
                if !CharWalker::leading_zeros_double_signs(&frag) {
                    let frag_str = chars_to_string(&frag);
                    match evaluate_decimal(frag_str.as_str()) {
                        Some(repr) => {
                            let mut repr_chars = str_to_chars(repr.as_str());
                            if repr_chars.len() == width && all_digits_exec(&repr_chars) {
                                let ghost repr_view = repr_chars@;
                                let mut wv = frag;
                                wv.push('=');
                                wv.append(&mut repr_chars);
                                proof {
                                    assert(wv@.take(lhs) =~= fragv);
                                    assert(wv@.skip(lhs + 1) =~= repr_view);
                                    if width > 1 {
                                        assert(wv@[lhs + 1] == repr_view[0]);
                                        assert(repr_view[0] != '0');
                                    }
                                    assert(bucket_member(wv@, length as nat, width as nat));
                                }
                                let w_str = chars_to_string(&wv);
                                out.push(w_str);
                                proof {
                                    lemma_encode_decode(n, lhs_len as nat);
                                    assert(encode14(wv@.take(lhs)) == n);
                                    lemma_new_element_covers(
                                        wv@,
                                        length as nat,
                                        width as nat,
                                        n,
                                        lhs_len as nat,
                                    );
                                    assert(out@ == old_out.push(w_str));
                                    assert(out@[old_out.len() as int]@ == wv@);
                                    assert(at_code_covered(out@, length as nat, width as nat, n));
                                    // The new string's fragment code is new, so no
                                    // earlier entry equals it.
                                    assert forall|k: int| 0 <= k < old_out.len() implies (
                                    #[trigger] old_out[k])@ != wv@ by {
                                        assert(encode14(old_out[k]@.take(lhs)) < n);
                                    }
                                }
                            } else {
                                proof {
                                    assert(eval_repr(fragv) == Some(repr@));
                                    lemma_no_element_at_code(
                                        fragv,
                                        length as nat,
                                        width as nat,
                                        n,
                                        lhs_len as nat,
                                    );
                                    assert(at_code_covered(
                                        out@,
                                        length as nat,
                                        width as nat,
                                        n,
                                    ));
                                }
                            }
                        },
                        None => {
                            proof {
                                lemma_no_element_at_code(
                                    fragv,
                                    length as nat,
                                    width as nat,
                                    n,
                                    lhs_len as nat,
                                );
                                assert(at_code_covered(out@, length as nat, width as nat, n));
                            }
                        },
                    }
                } else {
                    proof {
                        lemma_no_element_at_code(
                            fragv,
                            length as nat,
                            width as nat,
                            n,
                            lhs_len as nat,
                        );
                        assert(at_code_covered(out@, length as nat, width as nat, n));
                    }
                }
                proof {
                    assert forall|w: Seq<char>|
                        #[trigger] bucket_member(w, length as nat, width as nat) && encode14(
                            w.take(lhs),
                        ) < walker.curr implies exists|k: int|
                        0 <= k < out@.len() && (#[trigger] out@[k])@ == w by {
                        if encode14(w.take(lhs)) < n {
                            let k = choose|k: int|
                                0 <= k < old_out.len() && (#[trigger] old_out[k])@ == w;
                            assert(out@[k]@ == w);
                        } else {
                            assert(encode14(w.take(lhs)) == n);
                        }
                    }
                }
            },
        }
    }
    proof {
        assert forall|w: Seq<char>|
            #[trigger] bucket_member(w, length as nat, width as nat) implies exists|k: int|
            0 <= k < out@.len() && (#[trigger] out@[k])@ == w by {
            assert(w.take(lhs).len() == lhs);
            lemma_encode14_bounds(w.take(lhs));
        }
    }
    out
}

/// Every bucket member whose fragment code is `n` already stands in `out`.
spec fn at_code_covered(out: Seq<String>, length: nat, width: nat, n: nat) -> bool {
    forall|w: Seq<char>|
        #[trigger] bucket_member(w, length, width) && encode14(w.take(length - 1 - width)) == n
            ==> exists|k: int| 0 <= k < out.len() && (#[trigger] out[k])@ == w
}

/// The counter value of a decoded fragment is the counter that produced it.
proof fn lemma_encode_decode(n: nat, d: nat)
    requires
        n < pow14(d),
    ensures
        encode14(base14_digits(n, d)) == n,
    decreases d,
{
    if d == 0 {
        assert(pow14(0) == 1);
    } else {
        let s = base14_digits(n, d);
        let rest = base14_digits(n / 14, (d - 1) as nat);
        vstd::arithmetic::div_mod::lemma_fundamental_div_mod(n as int, 14);
        assert(n / 14 < pow14((d - 1) as nat)) by {
            assert(pow14(d) == 14 * pow14((d - 1) as nat));
        }
        lemma_encode_decode(n / 14, (d - 1) as nat);
        assert(s.drop_first() =~= rest);
        crate::alphabet::lemma_nerdle_char_roundtrip((n % 14) as int);
    }
}

/// Any bucket member whose fragment encodes to `n` is exactly the string
/// built from the fragment spelled by `n`: the walker misses nothing.
proof fn lemma_new_element_covers(built: Seq<char>, length: nat, width: nat, n: nat, d: nat)
    requires
        bucket_member(built, length, width),
        d == length - 1 - width,
        built.take(d as int) == base14_digits(n, d),
    ensures
        forall|w: Seq<char>|
            #[trigger] bucket_member(w, length, width) && encode14(w.take(length - 1 - width)) == n
                ==> w == built,
{
    let lhs = (length - 1 - width) as int;
    assert forall|w: Seq<char>|
        #[trigger] bucket_member(w, length, width) && encode14(w.take(lhs)) == n implies w
        == built by {
        assert(w.take(lhs).len() == lhs);
        lemma_decode_encode(w.take(lhs));
        assert(w.take(lhs) == base14_digits(n, d));
        assert(w.take(lhs) == built.take(lhs));
        assert(eval_repr(w.take(lhs)) == Some(w.skip(lhs + 1)));
        assert(w.skip(lhs + 1) == built.skip(lhs + 1));
        assert forall|idx: int| 0 <= idx < w.len() implies w[idx] == built[idx] by {
            if idx < lhs {
                assert(w.take(lhs)[idx] == w[idx]);
                assert(built.take(lhs)[idx] == built[idx]);
            } else if idx > lhs {
                assert(w.skip(lhs + 1)[idx - lhs - 1] == w[idx]);
                assert(built.skip(lhs + 1)[idx - lhs - 1] == built[idx]);
            }
        }
        assert(w =~= built);
    }
}

/// When the fragment spelled by `n` is pruned or fails evaluation or width
/// checks, no bucket member has a fragment encoding to `n`.
proof fn lemma_no_element_at_code(frag: Seq<char>, length: nat, width: nat, n: nat, d: nat)
    requires
        d == length - 1 - width,
        frag == base14_digits(n, d),
        bad_grammar(frag) || eval_repr(frag) is None || (forall|repr: Seq<char>|
            eval_repr(frag) == Some(repr) ==> repr.len() != width || !all_digit_chars(repr)),
    ensures
        forall|w: Seq<char>|
            #[trigger] bucket_member(w, length, width) ==> encode14(w.take(length - 1 - width))
                != n,
{
    let lhs = (length - 1 - width) as int;
    assert forall|w: Seq<char>|
        #[trigger] bucket_member(w, length, width) implies encode14(w.take(lhs)) != n by {
        if encode14(w.take(lhs)) == n {
            assert(w.take(lhs).len() == lhs);
            lemma_decode_encode(w.take(lhs));
            assert(w.take(lhs) == frag);
            assert(eval_repr(frag) == Some(w.skip(lhs + 1)));
            assert(w.skip(lhs + 1).len() == width);
        }
    }
}

/// Two buckets of different widths share no string: their `=` stands at a
/// different position, and a fragment never contains `=`.
proof fn lemma_buckets_disjoint(w: Seq<char>, v: Seq<char>, length: nat, w1: nat, w2: nat)
    requires
        bucket_member(w, length, w1),
        bucket_member(v, length, w2),
        w1 != w2,
    ensures
        w != v,
{
    if w1 > w2 {
        // w's '=' stands earlier, inside v's fragment.
        let lhs_w = (length - 1 - w1) as int;
        let lhs_v = (length - 1 - w2) as int;
        assert(lhs_w < lhs_v);
        assert(w[lhs_w] == '=');
        assert(v.take(lhs_v)[lhs_w] == v[lhs_w]);
        assert(is_nerdle_char(v[lhs_w]));
        assert(v[lhs_w] != '=');
    } else {
        // v's '=' stands earlier, inside w's fragment.
        let lhs_w = (length - 1 - w1) as int;
        let lhs_v = (length - 1 - w2) as int;
        assert(lhs_v < lhs_w);
        assert(v[lhs_v] == '=');
        assert(w.take(lhs_w)[lhs_v] == w[lhs_v]);
        assert(is_nerdle_char(w[lhs_v]));
        assert(w[lhs_v] != '=');
    }
}

/// Enumerate the complete universe of valid equation strings of the given
/// length: the union of the one-, two- and three-digit right-hand-side
/// buckets, each string exactly once.
pub fn equations_size(length: usize) -> (r: Vec<String>)
    requires
        5 <= length <= 18,
    ensures
        forall|k: int| 0 <= k < r@.len() ==> in_universe((#[trigger] r@[k])@, length as nat),
        forall|w: Seq<char>|
            #[trigger] in_universe(w, length as nat) ==> exists|k: int|
                0 <= k < r@.len() && (#[trigger] r@[k])@ == w,
        forall|k1: int, k2: int| 0 <= k1 < k2 < r@.len() ==> r@[k1]@ != r@[k2]@,
{
    let mut d = scan_size(length, 1);
    let mut e2 = scan_size(length, 2);
    let mut e3 = scan_size(length, 3);
    let ghost s1 = d@;
    let ghost s2 = e2@;
    let ghost s3 = e3@;
    d.append(&mut e2);
    d.append(&mut e3);
    proof {
        let all = d@;
        assert(all == s1 + s2 + s3);
        let ln = length as nat;
        assert forall|k1: int, k2: int| 0 <= k1 < k2 < all.len() implies all[k1]@ != all[k2]@ by {
            let a = all[k1]@;
            let b = all[k2]@;
            let wa = segment_width(k1, s1, s2, s3);
            let wb = segment_width(k2, s1, s2, s3);
            assert(bucket_member(a, ln, wa));
            assert(bucket_member(b, ln, wb));
            if wa != wb {
                lemma_buckets_disjoint(a, b, ln, wa, wb);
            }
        }
        assert forall|w: Seq<char>| #[trigger] in_universe(w, ln) implies exists|k: int|
            0 <= k < all.len() && (#[trigger] all[k])@ == w by {
            if bucket_member(w, ln, 1) {
                let k = choose|k: int| 0 <= k < s1.len() && (#[trigger] s1[k])@ == w;
                assert(all[k]@ == w);
            } else if bucket_member(w, ln, 2) {
                let k = choose|k: int| 0 <= k < s2.len() && (#[trigger] s2[k])@ == w;
                assert(all[s1.len() + k]@ == w);
            } else {
                let k = choose|k: int| 0 <= k < s3.len() && (#[trigger] s3[k])@ == w;
                assert(all[s1.len() + s2.len() + k]@ == w);
            }
        }
    }
    d
}

/// The right-hand-side width of the bucket a position of the concatenated
/// enumeration falls in.
spec fn segment_width(k: int, s1: Seq<String>, s2: Seq<String>, s3: Seq<String>) -> nat {
    if k < s1.len() {
        1
    } else if k < s1.len() + s2.len() {
        2
    } else {
        3
    }
}

/// Law: enumeration is deterministic in content. Any two pools that satisfy
/// the enumeration contract for the same length hold exactly the same
/// strings, whatever their order.
pub proof fn lemma_enumeration_deterministic(r1: Seq<Seq<char>>, r2: Seq<Seq<char>>, length: nat)
    requires
        forall|k: int| 0 <= k < r1.len() ==> in_universe(#[trigger] r1[k], length),
        forall|w: Seq<char>| #[trigger] in_universe(w, length) ==> r1.contains(w),
        forall|k: int| 0 <= k < r2.len() ==> in_universe(#[trigger] r2[k], length),
        forall|w: Seq<char>| #[trigger] in_universe(w, length) ==> r2.contains(w),
    ensures
        forall|w: Seq<char>| r1.contains(w) <==> r2.contains(w),
{
    assert forall|w: Seq<char>| r1.contains(w) implies r2.contains(w) by {
        let k = choose|k: int| 0 <= k < r1.len() && r1[k] == w;
        assert(in_universe(r1[k], length));
    }
    assert forall|w: Seq<char>| r2.contains(w) implies r1.contains(w) by {
        let k = choose|k: int| 0 <= k < r2.len() && r2[k] == w;
        assert(in_universe(r2[k], length));
    }
}

/// Law: every enumerated string splits at an `=` into a fragment and a
/// right-hand side such that the fragment has no leading zero and no two
/// adjacent operators, the right-hand side is plain digits, and evaluating
/// the fragment renders exactly that right-hand side. Returns the position
/// of the split.
pub proof fn lemma_round_trip(w: Seq<char>, length: nat) -> (lhs: int)
    requires
        in_universe(w, length),
    ensures
        1 <= lhs && lhs + 2 <= length,
        w.len() == length,
        w[lhs] == '=',
        !bad_grammar(w.take(lhs)),
        all_digit_chars(w.skip(lhs + 1)),
        w.skip(lhs + 1).len() > 1 ==> w.skip(lhs + 1)[0] != '0',
        eval_repr(w.take(lhs)) == Some(w.skip(lhs + 1)),
{
    if bucket_member(w, length, 1) {
        (length - 2) as int
    } else if bucket_member(w, length, 2) {
        (length - 3) as int
    } else {
        (length - 4) as int
    }
}

} // verus!

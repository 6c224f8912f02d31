//! Decimal numerals: the canonical base-10 representation of unsigned
//! integers, an executable formatter and a strict parser, and the lemmas
//! that make the two inverse to one another.

use vstd::prelude::*;

verus! {

/// The character for one decimal digit value.
pub open spec fn digit_char(d: nat) -> char {
    if d == 0 { '0' }
    else if d == 1 { '1' }
    else if d == 2 { '2' }
    else if d == 3 { '3' }
    else if d == 4 { '4' }
    else if d == 5 { '5' }
    else if d == 6 { '6' }
    else if d == 7 { '7' }
    else if d == 8 { '8' }
    else { '9' }
}

/// Whether a character is a decimal digit.
pub open spec fn is_digit(c: char) -> bool {
    c == '0' || c == '1' || c == '2' || c == '3' || c == '4'
    || c == '5' || c == '6' || c == '7' || c == '8' || c == '9'
}

/// The value of one decimal digit character (0 for anything else).
pub open spec fn digit_val(c: char) -> nat {
    if c == '1' { 1 }
    else if c == '2' { 2 }
    else if c == '3' { 3 }
    else if c == '4' { 4 }
    else if c == '5' { 5 }
    else if c == '6' { 6 }
    else if c == '7' { 7 }
    else if c == '8' { 8 }
    else if c == '9' { 9 }
    else { 0 }
}

/// The canonical decimal representation of `n`: no sign, no leading zero
/// except for the single digit of zero itself.
pub open spec fn dec_rep(n: nat) -> Seq<char>
    decreases n,
{
    if n < 10 {
        seq![digit_char(n)]
    } else {
        dec_rep(n / 10).push(digit_char(n % 10))
    }
}

/// The number denoted by a sequence of digit characters, read left to right.
pub open spec fn seq_val(s: Seq<char>) -> nat
    decreases s.len(),
{
    if s.len() == 0 {
        0
    } else {
        seq_val(s.drop_last()) * 10 + digit_val(s.last())
    }
}

/// Whether every character of `s` is a decimal digit.
pub open spec fn all_digits(s: Seq<char>) -> bool {
    forall|i: int| 0 <= i < s.len() ==> is_digit(#[trigger] s[i])
}

proof fn lemma_digit_char_val(d: nat)
    requires
        d < 10,
    ensures
        is_digit(digit_char(d)),
        digit_val(digit_char(d)) == d,
{
}

/// The canonical representation consists of digits, is never empty, and
/// starts with '0' only for zero itself.
pub proof fn lemma_dec_rep_shape(n: nat)
    ensures
        dec_rep(n).len() >= 1,
        all_digits(dec_rep(n)),
        dec_rep(n)[0] == '0' <==> n == 0,
        n < 10 <==> dec_rep(n).len() == 1,
    decreases n,
{
    if n < 10 {
        lemma_digit_char_val(n);
        assert(dec_rep(n) =~= seq![digit_char(n)]);
    } else {
        lemma_dec_rep_shape(n / 10);
        lemma_digit_char_val(n % 10);
        let s = dec_rep(n / 10);
        let t = dec_rep(n);
        assert(t == s.push(digit_char(n % 10)));
        assert(t[0] == s[0]);
        assert forall|i: int| 0 <= i < t.len() implies is_digit(#[trigger] t[i]) by {
            if i < s.len() {
                assert(t[i] == s[i]);
            } else {
                assert(t[i] == digit_char(n % 10));
            }
        }
    }
}

/// Reading the canonical representation back gives the number itself.
pub proof fn lemma_dec_rep_val(n: nat)
    ensures
        seq_val(dec_rep(n)) == n,
    decreases n,
{
    if n < 10 {
        lemma_digit_char_val(n);
        let s = dec_rep(n);
        assert(s.drop_last() =~= Seq::<char>::empty());
        assert(seq_val(s) == seq_val(s.drop_last()) * 10 + digit_val(s.last()));
    } else {
        lemma_dec_rep_val(n / 10);
        lemma_digit_char_val(n % 10);
        let s = dec_rep(n);
        assert(s.drop_last() =~= dec_rep(n / 10));
        assert(s.last() == digit_char(n % 10));
        assert(seq_val(s) == (n / 10) * 10 + n % 10);
        assert((n / 10) * 10 + n % 10 == n) by (nonlinear_arith);
    }
}

/// A digit string without a leading zero (other than "0" itself) is the
/// canonical representation of its own value.
pub proof fn lemma_canonical_digits(s: Seq<char>)
    requires
        s.len() >= 1,
        all_digits(s),
        s.len() == 1 || s[0] != '0',
    ensures
        dec_rep(seq_val(s)) == s,
    decreases s.len(),
{
    if s.len() == 1 {
        let d = digit_val(s[0]);
        assert(s.drop_last() =~= Seq::<char>::empty());
        assert(seq_val(Seq::<char>::empty()) == 0);
        assert(s.last() == s[0]);
        assert(seq_val(s) == seq_val(s.drop_last()) * 10 + digit_val(s.last()));
        assert(seq_val(s) == d);
        assert(is_digit(s[0]));
        assert(digit_char(d) == s[0]);
        assert(dec_rep(d) =~= seq![digit_char(d)]);
        assert(dec_rep(seq_val(s)) =~= s);
    } else {
        let p = s.drop_last();
        let c = s.last();
        assert(p[0] == s[0]);
        assert(all_digits(p)) by {
            assert(forall|i: int| 0 <= i < p.len() ==> p[i] == s[i]);
        }
        lemma_canonical_digits(p);
        lemma_nonzero_lead_val(p);
        let v = seq_val(s);
        assert(v == seq_val(p) * 10 + digit_val(c));
        assert(seq_val(p) >= 1);
        assert(v >= 10) by (nonlinear_arith)
            requires v == seq_val(p) * 10 + digit_val(c), seq_val(p) >= 1;
        assert(v / 10 == seq_val(p) && v % 10 == digit_val(c)) by (nonlinear_arith)
            requires v == seq_val(p) * 10 + digit_val(c), digit_val(c) < 10;
        assert(is_digit(c));
        assert(digit_char(digit_val(c)) == c);
        assert(dec_rep(v) == dec_rep(seq_val(p)).push(digit_char(digit_val(c))));
        assert(dec_rep(v) =~= s) by {
            assert(dec_rep(seq_val(p)) == p);
            assert(p.push(c) =~= s);
        }
    }
}

/// A digit string that does not start with '0' denotes at least 1.
proof fn lemma_nonzero_lead_val(s: Seq<char>)
    requires
        s.len() >= 1,
        all_digits(s),
        s[0] != '0',
    ensures
        seq_val(s) >= 1,
    decreases s.len(),
{
    if s.len() == 1 {
        assert(is_digit(s[0]));
        assert(digit_val(s[0]) >= 1);
    } else {
        let p = s.drop_last();
        assert(p[0] == s[0]);
        assert(all_digits(p)) by {
            assert(forall|i: int| 0 <= i < p.len() ==> p[i] == s[i]);
        }
        lemma_nonzero_lead_val(p);
        assert(seq_val(s) == seq_val(p) * 10 + digit_val(s.last()));
        assert(seq_val(p) * 10 >= 10) by (nonlinear_arith)
            requires seq_val(p) >= 1;
    }
}

/// Extending a digit string to the right never lowers its value.
pub(crate) proof fn lemma_val_prefix_le(s: Seq<char>, i: int)
    requires
        0 <= i <= s.len(),
    ensures
        seq_val(s.take(i)) <= seq_val(s),
    decreases s.len() - i,
{
    if i < s.len() {
        lemma_val_prefix_le(s, i + 1);
        let t = s.take(i + 1);
        assert(t.drop_last() =~= s.take(i));
        assert(seq_val(t) == seq_val(s.take(i)) * 10 + digit_val(t.last()));
        assert(seq_val(s.take(i)) * 10 >= seq_val(s.take(i))) by (nonlinear_arith);
    } else {
        assert(s.take(i) =~= s);
    }
}

/// Formats `n` in decimal; the result is exactly the canonical
/// representation.
pub fn u64_to_string(n: u64) -> (s: String)
    ensures
        s@ == dec_rep(n as nat),
{
    let mut rest: u64 = n;
    let mut tail: String = String::new();
    // Digits of `n` below the current `rest`, least significant first is
    // awkward to state; instead build the suffix already in order:
    // dec_rep(n) == dec_rep(rest) + tail@ throughout.
    while rest >= 10
        invariant
            dec_rep(n as nat) == dec_rep(rest as nat) + tail@,
        decreases rest,
    {
        let d = rest % 10;
        let glued = digit_str(d).to_owned().concat(tail.as_str());
        proof {
            assert(dec_rep(rest as nat) == dec_rep((rest / 10) as nat).push(digit_char((rest % 10) as nat)));
            assert(dec_rep(rest as nat) + tail@
                =~= dec_rep((rest / 10) as nat) + (seq![digit_char(d as nat)] + tail@));
        }
        tail = glued;
        rest = rest / 10;
    }
    let s = digit_str(rest).to_owned().concat(tail.as_str());
    proof {
        assert(dec_rep(rest as nat) =~= seq![digit_char(rest as nat)]);
        assert(s@ == dec_rep(n as nat));
    }
    s
}

/// Reads a digit character; `None` exactly on non-digits.
pub(crate) fn digit_of(c: char) -> (r: Option<u64>)
    ensures
        match r {
            Some(d) => is_digit(c) && d == digit_val(c) && d < 10,
            None => !is_digit(c),
        },
{
    match c {
        '0' => Some(0),
        '1' => Some(1),
        '2' => Some(2),
        '3' => Some(3),
        '4' => Some(4),
        '5' => Some(5),
        '6' => Some(6),
        '7' => Some(7),
        '8' => Some(8),
        '9' => Some(9),
        _ => None,
    }
}

/// Strict decimal parser: succeeds exactly on the canonical representation
/// of a `u64` (digits only, no sign, no superfluous leading zero, value in
/// range), and then returns that value.
pub fn parse_u64(s: &str) -> (r: Option<u64>)
    ensures
        match r {
            Some(n) => s@ == dec_rep(n as nat),
            None => forall|n: u64| s@ != dec_rep(n as nat),
        },
{
    let len = s.unicode_len();
    if len == 0 {
        proof {
            assert forall|n: u64| s@ != dec_rep(n as nat) by {
                lemma_dec_rep_shape(n as nat);
            }
        }
        return None;
    }
    if len > 1 && s.get_char(0) == '0' {
        proof {
            assert forall|n: u64| s@ != dec_rep(n as nat) by {
                lemma_dec_rep_shape(n as nat);
            }
        }
        return None;
    }
    let mut i: usize = 0;
    let mut acc: u64 = 0;
    while i < len
        invariant
            0 <= i <= len,
            len == s@.len(),
            len >= 1,
            len > 1 ==> s@[0] != '0',
            all_digits(s@.take(i as int)),
            acc as nat == seq_val(s@.take(i as int)),
        decreases len - i,
    {
        let c = s.get_char(i);
        let ghost pre = s@.take(i as int);
        let ghost cur = s@.take(i + 1 as int);
        proof {
            assert(cur.drop_last() =~= pre);
            assert(cur.last() == s@[i as int]);
        }
        match digit_of(c) {
            None => {
                proof {
                    assert forall|n: u64| s@ != dec_rep(n as nat) by {
                        lemma_dec_rep_shape(n as nat);
                        assert(dec_rep(n as nat).len() == s@.len() ==> is_digit(dec_rep(n as nat)[i as int]));
                    }
                }
                return None;
            },
            Some(d) => {
                let stepped = match acc.checked_mul(10) {
                    Some(t) => t.checked_add(d),
                    None => None,
                };
                match stepped {
                    None => {
                        proof {
                            assert(seq_val(cur) == acc as nat * 10 + d);
                            assert(seq_val(cur) > u64::MAX);
                            assert forall|n: u64| s@ != dec_rep(n as nat) by {
                                if s@ == dec_rep(n as nat) {
                                    lemma_dec_rep_val(n as nat);
                                    lemma_val_prefix_le(s@, i + 1 as int);
                                    assert(seq_val(s@) == n as nat);
                                }
                            }
                        }
                        return None;
                    },
                    Some(next) => {
                        proof {
                            assert(all_digits(cur)) by {
                                assert(forall|k: int| 0 <= k < pre.len() ==> cur[k] == pre[k]);
                            }
                            assert(next as nat == seq_val(cur));
                        }
                        acc = next;
                        i = i + 1;
                    },
                }
            },
        }
    }
    proof {
        assert(s@.take(len as int) =~= s@);
        lemma_canonical_digits(s@);
    }
    Some(acc)
}

/// The one-character string for a digit value.
fn digit_str(d: u64) -> (s: &'static str)
    requires
        d < 10,
    ensures
        s@ =~= seq![digit_char(d as nat)],
{
    proof {
        reveal_strlit("0");
        reveal_strlit("1");
        reveal_strlit("2");
        reveal_strlit("3");
        reveal_strlit("4");
        reveal_strlit("5");
        reveal_strlit("6");
        reveal_strlit("7");
        reveal_strlit("8");
        reveal_strlit("9");
    }
    match d {
        0 => "0",
        1 => "1",
        2 => "2",
        3 => "3",
        4 => "4",
        5 => "5",
        6 => "6",
        7 => "7",
        8 => "8",
        _ => "9",
    }
}

} // verus!

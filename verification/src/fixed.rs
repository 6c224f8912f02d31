//! Fixed-precision decimal values: an integer mantissa scaled by a power of
//! ten. Event positions are carried this way so that the text output has a
//! fixed-precision decimal form with an exact, verified round trip.

use vstd::prelude::*;
use crate::numerals::{all_digits, dec_rep, digit_val, is_digit, seq_val, u64_to_string};

verus! {

/// A decimal number `scaled / 10^decimals`.
#[derive(Debug, Clone, Copy, PartialEq, Eq, Structural)]
pub struct Fixed {
    pub scaled: i64,
    pub decimals: u32,
}

impl Fixed {
    /// The precision cap keeps every magnitude expressible with at most one
    /// digit per mantissa digit plus padding that stays small.
    pub open spec fn wf(self) -> bool {
        self.decimals <= 18
    }

    /// Magnitude of the mantissa.
    pub open spec fn mag(self) -> nat {
        if self.scaled < 0 {
            (-(self.scaled as int)) as nat
        } else {
            self.scaled as nat
        }
    }
}

/// `s` left-padded with '0' until it is at least `t` characters long.
pub open spec fn pad_zeros(s: Seq<char>, t: nat) -> Seq<char>
    decreases t,
{
    if s.len() >= t {
        s
    } else {
        seq!['0'] + pad_zeros(s, (t - 1) as nat)
    }
}

/// The digit characters of a fixed value: its magnitude, padded so that at
/// least one digit stands before the decimal point.
pub open spec fn fixed_digits(f: Fixed) -> Seq<char> {
    pad_zeros(dec_rep(f.mag()), f.decimals as nat + 1)
}

/// The unsigned body of the text form: the digits, with a point inserted
/// before the last `decimals` of them when there are any.
pub open spec fn fixed_body(f: Fixed) -> Seq<char> {
    let ds = fixed_digits(f);
    let cut = ds.len() - f.decimals as nat;
    if f.decimals == 0 {
        ds
    } else {
        ds.take(cut as int) + seq!['.'] + ds.skip(cut as int)
    }
}

/// The text form of a fixed value: a minus sign exactly for negative
/// mantissas, then the body.
pub open spec fn fixed_rep(f: Fixed) -> Seq<char> {
    if f.scaled < 0 {
        seq!['-'] + fixed_body(f)
    } else {
        fixed_body(f)
    }
}

/// Padding keeps the digits and reaches exactly the larger of the two
/// lengths.
proof fn lemma_pad_shape(s: Seq<char>, t: nat)
    requires
        all_digits(s),
    ensures
        all_digits(pad_zeros(s, t)),
        pad_zeros(s, t).len() == if s.len() >= t { s.len() } else { t },
    decreases t,
{
    if s.len() < t {
        lemma_pad_shape(s, (t - 1) as nat);
        let p = pad_zeros(s, (t - 1) as nat);
        let q = pad_zeros(s, t);
        assert(q == seq!['0'] + p);
        assert forall|i: int| 0 <= i < q.len() implies is_digit(#[trigger] q[i]) by {
            if i == 0 {
                assert(q[0] == '0');
            } else {
                assert(q[i] == p[i - 1]);
            }
        }
    }
}

/// A prepended zero does not change the value a digit string denotes.
proof fn lemma_prepend_zero_val(s: Seq<char>)
    ensures
        seq_val(seq!['0'] + s) == seq_val(s),
    decreases s.len(),
{
    let z = seq!['0'] + s;
    if s.len() == 0 {
        assert(z =~= seq!['0']);
        assert(z.drop_last() =~= Seq::<char>::empty());
        assert(seq_val(z) == seq_val(z.drop_last()) * 10 + digit_val('0'));
    } else {
        lemma_prepend_zero_val(s.drop_last());
        assert(z.drop_last() =~= seq!['0'] + s.drop_last());
        assert(z.last() == s.last());
        assert(seq_val(z) == seq_val(seq!['0'] + s.drop_last()) * 10 + digit_val(s.last()));
    }
}

/// Padding does not change the value a digit string denotes.
proof fn lemma_pad_val(s: Seq<char>, t: nat)
    ensures
        seq_val(pad_zeros(s, t)) == seq_val(s),
    decreases t,
{
    if s.len() < t {
        lemma_pad_val(s, (t - 1) as nat);
        lemma_prepend_zero_val(pad_zeros(s, (t - 1) as nat));
    }
}

/// Padding a shorter string is the same as padding it with one zero already
/// in front.
proof fn lemma_pad_prepend(s: Seq<char>, t: nat)
    requires
        s.len() < t,
    ensures
        pad_zeros(s, t) == pad_zeros(seq!['0'] + s, t),
    decreases t,
{
    let z = seq!['0'] + s;
    if z.len() >= t {
        assert(s.len() == t - 1);
        assert(pad_zeros(s, t) == seq!['0'] + pad_zeros(s, (t - 1) as nat));
        assert(pad_zeros(s, (t - 1) as nat) == s);
        assert(pad_zeros(z, t) == z);
    } else {
        lemma_pad_prepend(s, (t - 1) as nat);
        assert(pad_zeros(z, t) == seq!['0'] + pad_zeros(z, (t - 1) as nat));
        assert(pad_zeros(s, t) == seq!['0'] + pad_zeros(s, (t - 1) as nat));
    }
}

/// The canonical representation of the value of a digit string is never
/// longer than the string.
proof fn lemma_rep_len_le(s: Seq<char>)
    requires
        s.len() >= 1,
        all_digits(s),
    ensures
        dec_rep(seq_val(s)).len() <= s.len(),
    decreases s.len(),
{
    if s.len() == 1 || s[0] != '0' {
        crate::numerals::lemma_canonical_digits(s);
    } else {
        let tl = s.skip(1);
        assert(s =~= seq!['0'] + tl);
        lemma_prepend_zero_val(tl);
        assert(all_digits(tl)) by {
            assert(forall|i: int| 0 <= i < tl.len() ==> tl[i] == s[i + 1]);
        }
        lemma_rep_len_le(tl);
    }
}

/// Any digit string is its own value, re-rendered and padded back to its
/// own length.
pub proof fn lemma_pad_digit_string(s: Seq<char>)
    requires
        s.len() >= 1,
        all_digits(s),
    ensures
        pad_zeros(dec_rep(seq_val(s)), s.len()) == s,
    decreases s.len(),
{
    if s.len() == 1 || s[0] != '0' {
        crate::numerals::lemma_canonical_digits(s);
    } else {
        let tl = s.skip(1);
        assert(s =~= seq!['0'] + tl);
        assert(all_digits(tl)) by {
            assert(forall|i: int| 0 <= i < tl.len() ==> tl[i] == s[i + 1]);
        }
        lemma_prepend_zero_val(tl);
        lemma_pad_digit_string(tl);
        lemma_rep_len_le(tl);
        lemma_pad_prepend(dec_rep(seq_val(tl)), (tl.len() + 1) as nat);
        assert(pad_zeros(dec_rep(seq_val(s)), s.len())
            == seq!['0'] + pad_zeros(dec_rep(seq_val(tl)), tl.len()));
    }
}

/// Shape of the text form of a well-formed fixed value: digit content,
/// length, leading-zero discipline, the place of the point, and the value
/// the digits denote.
pub proof fn lemma_fixed_shape(f: Fixed)
    requires
        f.wf(),
    ensures
        ({
            let ds = fixed_digits(f);
            let d = f.decimals as nat;
            let body = fixed_body(f);
            &&& ds.len() >= d + 1
            &&& all_digits(ds)
            &&& seq_val(ds) == f.mag()
            &&& ds.len() - d == 1 || ds[0] != '0'
            &&& f.mag() <= 0x8000_0000_0000_0000
            &&& (f.scaled < 0 ==> f.mag() >= 1)
            &&& (d == 0 ==> body == ds)
            &&& (d > 0 ==> {
                let cut = ds.len() - d;
                &&& body.len() == ds.len() + 1
                &&& body[cut as int] == '.'
                &&& body.take(cut as int) == ds.take(cut as int)
                &&& body.skip(cut as int + 1) == ds.skip(cut as int)
                &&& forall|i: int| 0 <= i < body.len() && i != cut ==> is_digit(#[trigger] body[i])
            })
            &&& body.len() >= 1
            &&& is_digit(body[0])
            &&& (f.scaled < 0 ==> fixed_rep(f) == seq!['-'] + body)
            &&& (f.scaled >= 0 ==> fixed_rep(f) == body)
        }),
{
    let m = f.mag();
    let d = f.decimals as nat;
    let ds = fixed_digits(f);
    crate::numerals::lemma_dec_rep_shape(m);
    crate::numerals::lemma_dec_rep_val(m);
    lemma_pad_shape(dec_rep(m), d + 1);
    lemma_pad_val(dec_rep(m), d + 1);
    if dec_rep(m).len() >= d + 1 {
        assert(ds == dec_rep(m));
        if ds.len() - d > 1 {
            assert(ds.len() > 1);
            assert(m >= 10);
            assert(ds[0] != '0');
        }
    } else {
        assert(ds.len() == d + 1);
    }
    let body = fixed_body(f);
    if d > 0 {
        let cut = (ds.len() - d) as int;
        assert(body == ds.take(cut) + seq!['.'] + ds.skip(cut));
        assert(body.take(cut) =~= ds.take(cut));
        assert(body.skip(cut + 1) =~= ds.skip(cut));
        assert(body[cut] == '.');
        assert forall|i: int| 0 <= i < body.len() && i != cut implies is_digit(#[trigger] body[i]) by {
            if i < cut {
                assert(body[i] == ds[i]);
            } else {
                assert(body[i] == ds[i - 1]);
            }
        }
        assert(body[0] == ds[0]);
    }
}

impl Fixed {
    /// Renders the value in fixed-precision decimal text.
    pub fn to_text(&self) -> (s: String)
        requires
            self.wf(),
        ensures
            s@ == fixed_rep(*self),
    {
        proof {
            lemma_fixed_shape(*self);
        }
        let mag: u64 = if self.scaled >= 0 {
            self.scaled as u64
        } else if self.scaled == i64::MIN {
            9223372036854775808u64
        } else {
            (-self.scaled) as u64
        };
        assert(mag as nat == self.mag());
        let target = self.decimals as usize + 1;
        let mut padded = u64_to_string(mag);
        while padded.unicode_len() < target
            invariant
                pad_zeros(padded@, target as nat) == fixed_digits(*self),
                padded@.len() >= 1,
                target == self.decimals as nat + 1,
            decreases target - padded@.len(),
        {
            let ghost prev = padded@;
            padded = "0".to_owned().concat(padded.as_str());
            proof {
                reveal_strlit("0");
                assert(padded@ =~= seq!['0'] + prev);
                lemma_pad_prepend(prev, target as nat);
            }
        }
        assert(padded@ == fixed_digits(*self));
        let body: String = if self.decimals == 0 {
            padded
        } else {
            let n = padded.unicode_len();
            assert(n >= target);
            let cut = n - self.decimals as usize;
            let ip = padded.as_str().substring_char(0, cut);
            let fp = padded.as_str().substring_char(cut, n);
            let glued = ip.to_owned().concat(".").concat(fp);
            proof {
                reveal_strlit(".");
                assert(ip@ =~= fixed_digits(*self).take(cut as int));
                assert(fp@ =~= fixed_digits(*self).skip(cut as int));
                assert(glued@ =~= fixed_body(*self));
            }
            glued
        };
        if self.scaled < 0 {
            let signed = "-".to_owned().concat(body.as_str());
            proof {
                reveal_strlit("-");
                assert(signed@ =~= seq!['-'] + body@);
            }
            signed
        } else {
            body
        }
    }
}

/// Two well-formed fixed values with the same text form are equal: the
/// text determines sign, precision and mantissa.
pub proof fn lemma_fixed_rep_injective(a: Fixed, b: Fixed)
    requires
        a.wf(),
        b.wf(),
        fixed_rep(a) == fixed_rep(b),
    ensures
        a == b,
{
    lemma_fixed_shape(a);
    lemma_fixed_shape(b);
    let ba = fixed_body(a);
    let bb = fixed_body(b);
    if a.scaled < 0 && b.scaled >= 0 {
        assert(fixed_rep(b)[0] == bb[0]);
        assert((seq!['-'] + ba)[0] == '-');
        assert(false);
    }
    if a.scaled >= 0 && b.scaled < 0 {
        assert(fixed_rep(a)[0] == ba[0]);
        assert((seq!['-'] + bb)[0] == '-');
        assert(false);
    }
    if a.scaled < 0 {
        assert(ba =~= (seq!['-'] + ba).skip(1));
        assert(bb =~= (seq!['-'] + bb).skip(1));
    }
    assert(ba == bb);
    let dsa = fixed_digits(a);
    let dsb = fixed_digits(b);
    let da = a.decimals as nat;
    let db = b.decimals as nat;
    if da == 0 && db > 0 {
        let cutb = (dsb.len() - db) as int;
        assert(is_digit(ba[cutb]));
        assert(false);
    }
    if da > 0 && db == 0 {
        let cuta = (dsa.len() - da) as int;
        assert(is_digit(bb[cuta]));
        assert(false);
    }
    if da == 0 {
        assert(dsa == dsb);
    } else {
        let cuta = (dsa.len() - da) as int;
        let cutb = (dsb.len() - db) as int;
        assert(ba[cuta] == '.');
        assert(bb[cutb] == '.');
        if cuta < cutb {
            assert(is_digit(bb[cuta]));
            assert(false);
        }
        if cutb < cuta {
            assert(is_digit(ba[cutb]));
            assert(false);
        }
        assert(ba.len() == dsa.len() + 1 && bb.len() == dsb.len() + 1);
        assert(da == ba.len() - 1 - cuta);
        assert(db == bb.len() - 1 - cutb);
        assert(da == db);
        assert(dsa =~= ba.take(cuta) + ba.skip(cuta + 1)) by {
            assert(ba.take(cuta) == dsa.take(cuta));
            assert(ba.skip(cuta + 1) == dsa.skip(cuta));
            assert(dsa =~= dsa.take(cuta) + dsa.skip(cuta));
        }
        assert(dsb =~= bb.take(cutb) + bb.skip(cutb + 1)) by {
            assert(bb.take(cutb) == dsb.take(cutb));
            assert(bb.skip(cutb + 1) == dsb.skip(cutb));
            assert(dsb =~= dsb.take(cutb) + dsb.skip(cutb));
        }
        assert(dsa == dsb);
    }
    assert(a.mag() == b.mag());
    assert(a.decimals == b.decimals);
    if a.scaled < 0 {
        assert(a.scaled as int == -(a.mag() as int));
        assert(b.scaled as int == -(b.mag() as int));
    }
    assert(a.scaled == b.scaled);
}

/// The value denoted by a string of digits, capped: `None` exactly when a
/// non-digit occurs or the value exceeds `cap`.
fn digits_val(s: &str, cap: u64) -> (r: Option<u64>)
    ensures
        match r {
            Some(v) => all_digits(s@) && v as nat == seq_val(s@) && v <= cap,
            None => !all_digits(s@) || seq_val(s@) > cap,
        },
{
    let len = s.unicode_len();
    let mut i: usize = 0;
    let mut acc: u64 = 0;
    while i < len
        invariant
            0 <= i <= len,
            len == s@.len(),
            all_digits(s@.take(i as int)),
            acc as nat == seq_val(s@.take(i as int)),
            acc <= cap,
        decreases len - i,
    {
        let c = s.get_char(i);
        let ghost pre = s@.take(i as int);
        let ghost cur = s@.take(i + 1 as int);
        proof {
            assert(cur.drop_last() =~= pre);
            assert(cur.last() == s@[i as int]);
        }
        match crate::numerals::digit_of(c) {
            None => {
                return None;
            },
            Some(d) => {
                let stepped = match acc.checked_mul(10) {
                    Some(t) => t.checked_add(d),
                    None => None,
                };
                match stepped {
                    None => {
                        proof {
                            assert(seq_val(cur) > u64::MAX);
                            crate::numerals::lemma_val_prefix_le(s@, i + 1 as int);
                            assert(s@.take(len as int) =~= s@);
                            assert(seq_val(s@) > cap);
                        }
                        return None;
                    },
                    Some(next) => {
                        if next > cap {
                            proof {
                                assert(seq_val(cur) > cap);
                                crate::numerals::lemma_val_prefix_le(s@, i + 1 as int);
                                assert(s@.take(len as int) =~= s@);
                                assert(seq_val(s@) > cap);
                            }
                            return None;
                        }
                        proof {
                            assert(all_digits(cur)) by {
                                assert(forall|k: int| 0 <= k < pre.len() ==> cur[k] == pre[k]);
                            }
                        }
                        acc = next;
                        i = i + 1;
                    },
                }
            },
        }
    }
    proof {
        assert(s@.take(len as int) =~= s@);
    }
    Some(acc)
}

/// Sign analysis of a text form: the leading character decides the sign,
/// and what follows it is exactly the body.
proof fn lemma_rep_sign(f: Fixed, s: Seq<char>, neg: bool, body: Seq<char>)
    requires
        f.wf(),
        s == fixed_rep(f),
        s.len() >= 1,
        neg <==> s[0] == '-',
        body == s.skip(if neg { 1int } else { 0int }),
    ensures
        neg <==> f.scaled < 0,
        body == fixed_body(f),
{
    lemma_fixed_shape(f);
    if f.scaled < 0 {
        assert(s[0] == (seq!['-'] + fixed_body(f))[0]);
        assert(s.skip(1) =~= fixed_body(f));
    } else {
        assert(s[0] == fixed_body(f)[0]);
        assert(!is_digit('-'));
        assert(s.skip(0) =~= s);
    }
}

/// What a completed scan of the body tells about a hypothetical source
/// value: the point position pins the precision, and deleting the point
/// leaves exactly the digit characters.
proof fn lemma_rep_parse(f: Fixed, s: Seq<char>, neg: bool, body: Seq<char>, dot: int)
    requires
        f.wf(),
        s == fixed_rep(f),
        s.len() >= 1,
        body.len() >= 1,
        neg <==> s[0] == '-',
        body == s.skip(if neg { 1int } else { 0int }),
        0 <= dot <= body.len(),
        dot == body.len() ==> forall|k: int| 0 <= k < body.len() ==> body[k] != '.',
        dot < body.len() ==> body[dot] == '.'
            && (forall|k: int| 0 <= k < body.len() && k != dot ==> body[k] != '.'),
    ensures
        neg <==> f.scaled < 0,
        body == fixed_body(f),
        dot == body.len() ==> f.decimals == 0 && fixed_digits(f) == body,
        dot < body.len() ==> f.decimals as int == body.len() - 1 - dot
            && dot == fixed_digits(f).len() - f.decimals
            && fixed_digits(f) =~= body.take(dot) + body.skip(dot + 1)
            && dot >= 1,
        seq_val(fixed_digits(f)) == f.mag(),
        all_digits(fixed_digits(f)),
        fixed_digits(f).len() - f.decimals as int == 1 || fixed_digits(f)[0] != '0',
        body[0] == fixed_digits(f)[0],
        f.mag() <= 0x8000_0000_0000_0000,
        f.scaled < 0 ==> f.mag() >= 1,
{
    lemma_fixed_shape(f);
    lemma_rep_sign(f, s, neg, body);
    let ds = fixed_digits(f);
    let d = f.decimals as nat;
    if d == 0 {
        assert(body == ds);
        assert(forall|k: int| 0 <= k < body.len() ==> is_digit(#[trigger] body[k]));
        assert(!is_digit('.'));
        if dot < body.len() {
            assert(body[dot] == '.');
            assert(false);
        }
    } else {
        let cut = (ds.len() - d) as int;
        assert(body[cut] == '.');
        assert(!is_digit('.'));
        if dot == body.len() {
            assert(false);
        }
        if dot != cut {
            assert(is_digit(body[dot]));
            assert(false);
        }
        assert(body.len() == ds.len() + 1);
        assert(ds =~= ds.take(cut) + ds.skip(cut));
        assert(ds =~= body.take(dot) + body.skip(dot + 1));
        assert(body[0] == ds[0]);
    }
}

/// Whether no well-formed fixed value has `s` as its text form.
pub open spec fn no_fixed_rep(s: Seq<char>) -> bool {
    forall|f: Fixed| f.wf() ==> s != #[trigger] fixed_rep(f)
}

/// Strict fixed-precision parser: succeeds exactly on the text form of a
/// well-formed fixed value, and then returns that value.
#[verifier::loop_isolation(false)]
#[verifier::rlimit(50)]
pub fn parse_fixed(s: &str) -> (r: Option<Fixed>)
    ensures
        match r {
            Some(f) => f.wf() && s@ == fixed_rep(f),
            None => no_fixed_rep(s@),
        },
{
    let len = s.unicode_len();
    if len == 0 {
        proof {
            assert forall|f: Fixed| f.wf() implies s@ != #[trigger] fixed_rep(f) by {
                lemma_fixed_shape(f);
            }
        }
        return None;
    }
    let neg = s.get_char(0) == '-';
    let start: usize = if neg { 1 } else { 0 };
    if start >= len {
        proof {
            assert forall|f: Fixed| f.wf() implies s@ != #[trigger] fixed_rep(f) by {
                if s@ == fixed_rep(f) {
                    lemma_fixed_shape(f);
                    assert(s@[0] == '-');
                    if f.scaled < 0 {
                        assert(s@.len() == 1 + fixed_body(f).len());
                    } else {
                        assert(s@[0] == fixed_body(f)[0]);
                        assert(!is_digit('-'));
                    }
                }
            }
        }
        return None;
    }
    let body = s.substring_char(start, len);
    let blen = len - start;
    proof {
        assert(body@ =~= s@.skip(if neg { 1int } else { 0int }));
    }
    let mut q: usize = 0;
    let mut dot: usize = blen;
    while q < blen
        invariant
            0 <= q <= blen,
            0 <= dot <= blen,
            dot == blen ==> forall|k: int| 0 <= k < q ==> body@[k] != '.',
            dot < blen ==> body@[dot as int] == '.' && dot < q
                && (forall|k: int| 0 <= k < q && k != dot ==> body@[k] != '.'),
        decreases blen - q,
    {
        let c = body.get_char(q);
        if c == '.' {
            if dot < blen {
                proof {
                    assert forall|f: Fixed| f.wf() implies s@ != #[trigger] fixed_rep(f) by {
                        if s@ == fixed_rep(f) {
                            lemma_fixed_shape(f);
                            lemma_rep_sign(f, s@, neg, body@);
                            let ds = fixed_digits(f);
                            let fb = fixed_body(f);
                            assert(fb[dot as int] == '.' && fb[q as int] == '.');
                            assert(!is_digit('.'));
                            if f.decimals == 0 {
                                assert(is_digit(fb[dot as int]));
                            } else {
                                let cut = (ds.len() - f.decimals as nat) as int;
                                assert(dot != cut || q != cut);
                                if dot != cut {
                                    assert(is_digit(fb[dot as int]));
                                } else {
                                    assert(is_digit(fb[q as int]));
                                }
                            }
                        }
                    }
                }
                return None;
            }
            dot = q;
        }
        q = q + 1;
    }
    let ilen: usize = if dot == blen { blen } else { dot };
    let d: usize = if dot == blen { 0 } else { blen - 1 - dot };
    if dot < blen && (dot == 0 || d == 0 || d > 18) {
        proof {
            assert forall|f: Fixed| f.wf() implies s@ != #[trigger] fixed_rep(f) by {
                if s@ == fixed_rep(f) {
                    lemma_rep_parse(f, s@, neg, body@, dot as int);
                }
            }
        }
        return None;
    }
    if ilen > 1 && body.get_char(0) == '0' {
        proof {
            assert forall|f: Fixed| f.wf() implies s@ != #[trigger] fixed_rep(f) by {
                if s@ == fixed_rep(f) {
                    lemma_rep_parse(f, s@, neg, body@, dot as int);
                    let ds = fixed_digits(f);
                    assert(ds[0] == '0');
                    assert(ds.len() - f.decimals as int == 1);
                }
            }
        }
        return None;
    }
    let digits: String = if dot == blen {
        body.to_owned()
    } else {
        body.substring_char(0, dot).to_owned().concat(body.substring_char(dot + 1, blen))
    };
    proof {
        if dot == blen {
            assert(digits@ =~= body@.take(dot as int) + body@.skip(dot as int));
        }
    }
    let parsed = digits_val(digits.as_str(), 9223372036854775808u64);
    match parsed {
        None => {
            proof {
                assert forall|f: Fixed| f.wf() implies s@ != #[trigger] fixed_rep(f) by {
                    if s@ == fixed_rep(f) {
                        lemma_rep_parse(f, s@, neg, body@, dot as int);
                        assert(digits@ == fixed_digits(f));
                    }
                }
            }
            None
        },
        Some(mag) => {
            if neg && mag == 0 {
                proof {
                    assert forall|f: Fixed| f.wf() implies s@ != #[trigger] fixed_rep(f) by {
                        if s@ == fixed_rep(f) {
                            lemma_rep_parse(f, s@, neg, body@, dot as int);
                            assert(digits@ == fixed_digits(f));
                            assert(f.mag() == 0 && f.scaled < 0);
                        }
                    }
                }
                return None;
            }
            if !neg && mag > 9223372036854775807u64 {
                proof {
                    assert forall|f: Fixed| f.wf() implies s@ != #[trigger] fixed_rep(f) by {
                        if s@ == fixed_rep(f) {
                            lemma_rep_parse(f, s@, neg, body@, dot as int);
                            assert(digits@ == fixed_digits(f));
                            assert(f.mag() == mag as nat);
                        }
                    }
                }
                return None;
            }
            let scaled: i64 = if neg {
                if mag == 9223372036854775808u64 {
                    i64::MIN
                } else {
                    -(mag as i64)
                }
            } else {
                mag as i64
            };
            let cand = Fixed { scaled, decimals: d as u32 };
            proof {
                assert(cand.wf());
                assert(cand.mag() == mag as nat);
                let dg = digits@;
                assert(dg.len() == ilen + d);
                assert(dg.len() >= 1);
                lemma_pad_digit_string(dg);
                if ilen == 1 {
                    assert(fixed_digits(cand) == dg);
                } else {
                    assert(dg[0] == body@[0]);
                    assert(dg.len() == 1 || dg[0] != '0');
                    crate::numerals::lemma_canonical_digits(dg);
                    assert(dec_rep(cand.mag()) == dg);
                    assert(dg.len() >= cand.decimals as nat + 1);
                    assert(fixed_digits(cand) == dg);
                }
                if dot == blen {
                    assert(fixed_body(cand) == dg);
                    assert(body@ =~= dg);
                } else {
                    let cut = (fixed_digits(cand).len() - cand.decimals as nat) as int;
                    assert(cut == ilen);
                    assert(fixed_digits(cand).take(cut) =~= body@.take(dot as int));
                    assert(fixed_digits(cand).skip(cut) =~= body@.skip(dot as int + 1));
                    assert(fixed_body(cand) =~= body@);
                }
                if neg {
                    assert(s@[0] == '-');
                    assert(fixed_rep(cand) =~= s@);
                } else {
                    assert(fixed_rep(cand) =~= s@);
                }
            }
            Some(cand)
        },
    }
}

} // verus!

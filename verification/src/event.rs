//! One simulated event: its number, its position in fixed-precision
//! decimal, the per-wire charge counts and the finalized image — and the
//! exact text row it is written as, with a verified round trip.

use vstd::prelude::*;
use crate::fixed::{Fixed, fixed_rep, lemma_fixed_shape, lemma_fixed_rep_injective};
use crate::numerals::{dec_rep, is_digit};
use crate::rows::{
    flat_of, img_as_str_1d, join_sp, lemma_join_concat, lemma_join_free, lemma_join_injective,
    split_spaces, token_free, tokens_free, vec_as_str,
};

verus! {

/// One event record, immutable once assembled.
#[derive(Debug)]
pub struct Event {
    pub number: u64,
    pub x: Fixed,
    pub y: Fixed,
    pub wire_q: Vec<u64>,
    pub img: Vec<Vec<u64>>,
}

/// Well-formedness against the detector dimensions: one charge count per
/// wire, a square image, well-formed coordinates.
pub open spec fn wf_event(e: Event, n_wires: nat, n_side: nat) -> bool {
    &&& e.x.wf()
    &&& e.y.wf()
    &&& e.wire_q@.len() == n_wires
    &&& e.img@.len() == n_side
    &&& forall|i: int| 0 <= i < e.img@.len() ==> #[trigger] e.img@[i]@.len() == n_side
}

/// The tokens of the text row, in order: event number, the two
/// coordinates, the wire charges, the image cells row by row.
pub open spec fn event_tokens(e: Event) -> Seq<Seq<char>> {
    seq![dec_rep(e.number as nat), fixed_rep(e.x), fixed_rep(e.y)]
        + e.wire_q@.map_values(|n: u64| dec_rep(n as nat))
        + flat_of(e.img@).map_values(|n: u64| dec_rep(n as nat))
}

/// The text row: the tokens joined by single spaces, ending in a line
/// break.
pub open spec fn event_rep(e: Event) -> Seq<char> {
    join_sp(event_tokens(e), ' ') + seq!['\n']
}

/// One more carrier captured by the given wire.
pub fn add_charge(wire_q: &mut Vec<u64>, iwire: usize)
    requires
        iwire < old(wire_q)@.len(),
        old(wire_q)@[iwire as int] < u64::MAX,
    ensures
        final(wire_q)@ == old(wire_q)@.update(
            iwire as int,
            (old(wire_q)@[iwire as int] + 1) as u64,
        ),
{
    let c = wire_q[iwire];
    wire_q.set(iwire, c + 1);
}

/// The decimal numeral of any number holds neither a space nor a line
/// break.
pub proof fn lemma_dec_rep_free(n: nat)
    ensures
        token_free(dec_rep(n), ' '),
        token_free(dec_rep(n), '\n'),
{
    crate::numerals::lemma_dec_rep_shape(n);
    assert forall|i: int| 0 <= i < dec_rep(n).len()
        implies dec_rep(n)[i] != ' ' && dec_rep(n)[i] != '\n' by {
        assert(is_digit(dec_rep(n)[i]));
    }
}

/// The text of a well-formed fixed value holds neither a space nor a line
/// break.
pub proof fn lemma_fixed_rep_free(f: Fixed)
    requires
        f.wf(),
    ensures
        token_free(fixed_rep(f), ' '),
        token_free(fixed_rep(f), '\n'),
{
    lemma_fixed_shape(f);
    let body = crate::fixed::fixed_body(f);
    let ds = crate::fixed::fixed_digits(f);
    assert forall|i: int| 0 <= i < body.len()
        implies body[i] != ' ' && body[i] != '\n' by {
        if f.decimals == 0 {
            assert(is_digit(body[i]));
        } else {
            let cut = ds.len() - f.decimals as nat;
            if i == cut {
                assert(body[i] == '.');
            } else {
                assert(is_digit(body[i]));
            }
        }
    }
    let rep = fixed_rep(f);
    assert forall|i: int| 0 <= i < rep.len()
        implies rep[i] != ' ' && rep[i] != '\n' by {
        if f.scaled < 0 {
            if i == 0 {
                assert(rep[0] == '-');
            } else {
                assert(rep[i] == body[i - 1]);
            }
        } else {
            assert(rep[i] == body[i]);
        }
    }
}

/// No token of an event row holds a space or a line break.
pub proof fn lemma_event_tokens_free(e: Event)
    requires
        e.x.wf(),
        e.y.wf(),
    ensures
        tokens_free(event_tokens(e), ' '),
        tokens_free(event_tokens(e), '\n'),
{
    let ts = event_tokens(e);
    let nw = e.wire_q@.len() as int;
    assert forall|i: int| 0 <= i < ts.len()
        implies token_free(#[trigger] ts[i], ' ') && token_free(ts[i], '\n') by {
        if i == 0 {
            lemma_dec_rep_free(e.number as nat);
        } else if i == 1 {
            lemma_fixed_rep_free(e.x);
        } else if i == 2 {
            lemma_fixed_rep_free(e.y);
        } else if i < 3 + nw {
            assert(ts[i] == dec_rep(e.wire_q@[i - 3] as nat));
            lemma_dec_rep_free(e.wire_q@[i - 3] as nat);
        } else {
            assert(ts[i] == dec_rep(flat_of(e.img@)[i - 3 - nw] as nat));
            lemma_dec_rep_free(flat_of(e.img@)[i - 3 - nw] as nat);
        }
    }
}

impl Event {
    /// Writes the event as its text row.
    pub fn as_text_row(&self) -> (s: String)
        requires
            self.x.wf(),
            self.y.wf(),
            self.wire_q@.len() >= 1,
            flat_of(self.img@).len() >= 1,
        ensures
            s@ == event_rep(*self),
    {
        let mut s = crate::numerals::u64_to_string(self.number);
        let xs = self.x.to_text();
        let ys = self.y.to_text();
        let ws = vec_as_str(&self.wire_q);
        let gs = img_as_str_1d(&self.img);
        s.append(" ");
        s.append(xs.as_str());
        s.append(" ");
        s.append(ys.as_str());
        s.append(" ");
        s.append(ws.as_str());
        s.append(" ");
        s.append(gs.as_str());
        s.append("\n");
        proof {
            reveal_strlit(" ");
            reveal_strlit("\n");
            assert(" "@ =~= seq![' ']);
            assert("\n"@ =~= seq!['\n']);
            let head = seq![dec_rep(self.number as nat), fixed_rep(self.x), fixed_rep(self.y)];
            let wt = self.wire_q@.map_values(|n: u64| dec_rep(n as nat));
            let gt = flat_of(self.img@).map_values(|n: u64| dec_rep(n as nat));
            let t1 = seq![fixed_rep(self.x), fixed_rep(self.y)];
            let t0 = seq![fixed_rep(self.y)];
            assert(join_sp(t0, ' ') == fixed_rep(self.y));
            assert(head.drop_first() =~= t1);
            assert(t1.drop_first() =~= t0);
            assert(join_sp(t1, ' ') == t1[0] + seq![' '] + join_sp(t0, ' '));
            assert(join_sp(head, ' ') == head[0] + seq![' '] + join_sp(t1, ' '));
            assert(join_sp(head, ' ') =~= dec_rep(self.number as nat) + seq![' ']
                + (fixed_rep(self.x) + seq![' '] + fixed_rep(self.y)));
            assert(wt.len() >= 1 && gt.len() >= 1);
            lemma_join_concat(head, wt, ' ');
            lemma_join_concat(head + wt, gt, ' ');
            assert(event_tokens(*self) =~= (head + wt) + gt);
            assert(s@ =~= join_sp(event_tokens(*self), ' ') + seq!['\n']);
        }
        s
    }
}

/// A split of an event row matches the event's own tokens exactly.
proof fn lemma_event_match(
    e: Event,
    n_wires: nat,
    n_side: nat,
    line: Seq<char>,
    toks: Seq<Seq<char>>,
)
    requires
        wf_event(e, n_wires, n_side),
        join_sp(toks, ' ') == line,
        tokens_free(toks, ' '),
        toks.len() >= 1,
        line == join_sp(event_tokens(e), ' '),
    ensures
        toks == event_tokens(e),
        toks.len() == 3 + n_wires + n_side * n_side,
        flat_of(e.img@).len() == n_side * n_side,
{
    lemma_event_tokens_free(e);
    crate::rows::lemma_flat_len(e.img@, n_side);
    lemma_join_injective(toks, event_tokens(e), ' ');
}

/// Reads one text row back into an event, given the detector dimensions:
/// succeeds exactly on the rows that well-formed events write.
#[verifier::loop_isolation(false)]
#[verifier::rlimit(100)]
pub fn parse_event(s: &str, n_wires: usize, n_side: usize) -> (r: Option<Event>)
    requires
        n_wires >= 1,
        n_side >= 1,
        3 + n_wires as int + (n_side as int) * (n_side as int) <= usize::MAX as int,
    ensures
        match r {
            Some(e) => wf_event(e, n_wires as nat, n_side as nat) && s@ == event_rep(e),
            None => forall|e: Event| wf_event(e, n_wires as nat, n_side as nat)
                ==> s@ != #[trigger] event_rep(e),
        },
{
    let nw = n_wires;
    let ns = n_side;
    let len = s.unicode_len();
    if len == 0 || s.get_char(len - 1) != '\n' {
        proof {
            assert forall|e: Event| wf_event(e, nw as nat, ns as nat)
                implies s@ != #[trigger] event_rep(e) by {
                if s@ == event_rep(e) {
                    assert(s@.last() == '\n');
                }
            }
        }
        return None;
    }
    let line = s.substring_char(0, len - 1);
    let mut i: usize = 0;
    while i < len - 1
        invariant
            0 <= i <= len - 1,
            forall|k: int| 0 <= k < i ==> line@[k] != '\n',
        decreases len - 1 - i,
    {
        if line.get_char(i) == '\n' {
            proof {
                assert forall|e: Event| wf_event(e, nw as nat, ns as nat)
                    implies s@ != #[trigger] event_rep(e) by {
                    if s@ == event_rep(e) {
                        lemma_event_tokens_free(e);
                        lemma_join_free(event_tokens(e), ' ', '\n');
                        assert(line@[i as int] == join_sp(event_tokens(e), ' ')[i as int]);
                    }
                }
            }
            return None;
        }
        i = i + 1;
    }
    let toks = split_spaces(line);
    let ghost tv = toks@.map_values(|t: String| t@);
    let wanted = 3 + n_wires + n_side * n_side;
    proof {
        assert forall|e: Event| wf_event(e, nw as nat, ns as nat) && s@ == event_rep(e)
            implies tv == event_tokens(e) && tv.len() == wanted as int
                && flat_of(e.img@).len() == (ns as int) * (ns as int) by {
            assert(line@ =~= join_sp(event_tokens(e), ' ')) by {
                assert(s@ == join_sp(event_tokens(e), ' ') + seq!['\n']);
            }
            lemma_event_match(e, nw as nat, ns as nat, line@, tv);
        }
    }
    if toks.len() != wanted {
        proof {
            assert forall|e: Event| wf_event(e, nw as nat, ns as nat)
                implies s@ != #[trigger] event_rep(e) by {}
        }
        return None;
    }
    let number = match crate::numerals::parse_u64(toks[0].as_str()) {
        Some(v) => v,
        None => {
            proof {
                assert forall|e: Event| wf_event(e, nw as nat, ns as nat)
                    implies s@ != #[trigger] event_rep(e) by {
                    if s@ == event_rep(e) {
                        assert(tv[0] == dec_rep(e.number as nat));
                    }
                }
            }
            return None;
        },
    };
    let x = match crate::fixed::parse_fixed(toks[1].as_str()) {
        Some(v) => v,
        None => {
            proof {
                assert forall|e: Event| wf_event(e, nw as nat, ns as nat)
                    implies s@ != #[trigger] event_rep(e) by {
                    if s@ == event_rep(e) {
                        assert(tv[1] == fixed_rep(e.x));
                    }
                }
            }
            return None;
        },
    };
    let y = match crate::fixed::parse_fixed(toks[2].as_str()) {
        Some(v) => v,
        None => {
            proof {
                assert forall|e: Event| wf_event(e, nw as nat, ns as nat)
                    implies s@ != #[trigger] event_rep(e) by {
                    if s@ == event_rep(e) {
                        assert(tv[2] == fixed_rep(e.y));
                    }
                }
            }
            return None;
        },
    };
    let mut wire_q: Vec<u64> = Vec::new();
    let mut k: usize = 0;
    while k < n_wires
        invariant
            0 <= k <= nw,
            wire_q@.len() == k,
            forall|t: int| 0 <= t < k ==> dec_rep(#[trigger] wire_q@[t] as nat) == tv[3 + t],
        decreases nw - k,
    {
        match crate::numerals::parse_u64(toks[3 + k].as_str()) {
            Some(v) => {
                wire_q.push(v);
            },
            None => {
                proof {
                    assert forall|e: Event| wf_event(e, nw as nat, ns as nat)
                        implies s@ != #[trigger] event_rep(e) by {
                        if s@ == event_rep(e) {
                            assert(tv[3 + k] == event_tokens(e)[3 + k]);
                            assert(event_tokens(e)[3 + k]
                                == dec_rep(e.wire_q@[k as int] as nat));
                        }
                    }
                }
                return None;
            },
        }
        k = k + 1;
    }
    let mut img: Vec<Vec<u64>> = Vec::new();
    let mut a: usize = 0;
    while a < n_side
        invariant
            0 <= a <= ns,
            img@.len() == a,
            forall|p: int| 0 <= p < a ==> #[trigger] img@[p]@.len() == ns,
            forall|p: int, q: int| 0 <= p < a && 0 <= q < ns
                ==> dec_rep(#[trigger] img@[p]@[q] as nat)
                    == tv[3 + nw + p * (ns as int) + q],
        decreases ns - a,
    {
        let mut row: Vec<u64> = Vec::new();
        let mut b: usize = 0;
        while b < n_side
            invariant
                0 <= b <= ns,
                a < ns,
                row@.len() == b,
                forall|q: int| 0 <= q < b ==> dec_rep(#[trigger] row@[q] as nat)
                    == tv[3 + nw + (a as int) * (ns as int) + q],
            decreases ns - b,
        {
            proof {
                assert((a as int) * (ns as int) + (b as int) < (ns as int) * (ns as int))
                    by (nonlinear_arith)
                    requires
                        (a as int) + 1 <= ns as int,
                        0 <= b as int,
                        (b as int) < (ns as int),
                ;
            }
            let idx = 3 + nw + a * ns + b;
            match crate::numerals::parse_u64(toks[idx].as_str()) {
                Some(v) => {
                    row.push(v);
                },
                None => {
                    proof {
                        assert forall|e: Event| wf_event(e, nw as nat, ns as nat)
                            implies s@ != #[trigger] event_rep(e) by {
                            if s@ == event_rep(e) {
                                let off = (a as int) * (ns as int) + (b as int);
                                assert(tv[3 + nw + off] == event_tokens(e)[3 + nw + off]);
                                crate::rows::lemma_flat_index(
                                    e.img@, ns as nat, a as int, b as int);
                                assert(event_tokens(e)[3 + nw + off]
                                    == dec_rep(flat_of(e.img@)[off] as nat));
                            }
                        }
                    }
                    return None;
                },
            }
            b = b + 1;
        }
        img.push(row);
        proof {
            assert forall|p: int, q: int| 0 <= p < a + 1 && 0 <= q < ns
                implies dec_rep(#[trigger] img@[p]@[q] as nat)
                    == tv[3 + nw + p * (ns as int) + q] by {
                if p < a {
                    assert(img@[p] == img@.drop_last()[p]);
                } else {
                    assert(img@[p]@ == row@);
                }
            }
        }
        a = a + 1;
    }
    let e = Event { number, x, y, wire_q, img };
    proof {
        assert(wf_event(e, nw as nat, ns as nat));
        crate::rows::lemma_flat_len(e.img@, ns as nat);
        assert(event_tokens(e) =~= tv) by {
            assert forall|t: int| 0 <= t < event_tokens(e).len()
                implies event_tokens(e)[t] == tv[t] by {
                if t == 0 {
                } else if t == 1 {
                } else if t == 2 {
                } else if t < 3 + nw {
                    assert(event_tokens(e)[t] == dec_rep(e.wire_q@[t - 3] as nat));
                } else {
                    let off = t - 3 - nw;
                    let p = off / (ns as int);
                    let q = off % (ns as int);
                    vstd::arithmetic::div_mod::lemma_fundamental_div_mod(off, ns as int);
                    assert(0 <= q < ns as int);
                    assert(0 <= p < ns as int) by (nonlinear_arith)
                        requires
                            off == p * (ns as int) + q,
                            0 <= off,
                            off < (ns as int) * (ns as int),
                            0 <= q < ns as int,
                    ;
                    crate::rows::lemma_flat_index(e.img@, ns as nat, p, q);
                    assert(event_tokens(e)[t] == dec_rep(flat_of(e.img@)[off] as nat));
                    assert(dec_rep(e.img@[p]@[q] as nat) == tv[3 + nw + p * (ns as int) + q]);
                }
            }
        }
        assert(event_rep(e) =~= s@) by {
            assert(join_sp(event_tokens(e), ' ') == line@);
            assert(line@ == s@.subrange(0, s@.len() - 1));
            assert(s@.last() == '\n');
        }
    }
    Some(e)
}

/// The text row determines the event: two well-formed events with the same
/// row agree field by field. With the contracts of `as_text_row` and
/// `parse_event`, re-parsing a written row therefore recovers the event
/// exactly.
pub proof fn lemma_event_rep_injective(a: Event, b: Event, n_wires: nat, n_side: nat)
    requires
        wf_event(a, n_wires, n_side),
        wf_event(b, n_wires, n_side),
        event_rep(a) == event_rep(b),
    ensures
        a.number == b.number,
        a.x == b.x,
        a.y == b.y,
        a.wire_q@ == b.wire_q@,
        a.img@.len() == b.img@.len(),
        forall|i: int| 0 <= i < a.img@.len() ==> #[trigger] a.img@[i]@ == b.img@[i]@,
{
    lemma_event_tokens_free(a);
    lemma_event_tokens_free(b);
    crate::rows::lemma_flat_len(a.img@, n_side);
    crate::rows::lemma_flat_len(b.img@, n_side);
    let ta = event_tokens(a);
    let tb = event_tokens(b);
    assert(join_sp(ta, ' ') =~= join_sp(tb, ' ')) by {
        let ja = join_sp(ta, ' ');
        let jb = join_sp(tb, ' ');
        assert(ja + seq!['\n'] == jb + seq!['\n']);
        assert((ja + seq!['\n']).len() == ja.len() + 1);
        assert((jb + seq!['\n']).len() == jb.len() + 1);
        assert(ja.len() == jb.len());
        assert(forall|i: int| 0 <= i < ja.len() ==> ja[i] == (ja + seq!['\n'])[i]);
        assert(forall|i: int| 0 <= i < jb.len() ==> jb[i] == (jb + seq!['\n'])[i]);
    }
    lemma_join_injective(ta, tb, ' ');
    assert(a.number == b.number) by {
        assert(dec_rep(a.number as nat) == dec_rep(b.number as nat));
        crate::numerals::lemma_dec_rep_val(a.number as nat);
        crate::numerals::lemma_dec_rep_val(b.number as nat);
    }
    assert(a.x == b.x) by {
        assert(ta[1] == tb[1]);
        lemma_fixed_rep_injective(a.x, b.x);
    }
    assert(a.y == b.y) by {
        assert(ta[2] == tb[2]);
        lemma_fixed_rep_injective(a.y, b.y);
    }
    let nw = n_wires as int;
    let ns = n_side as int;
    assert(a.wire_q@ =~= b.wire_q@) by {
        assert forall|t: int| 0 <= t < nw implies a.wire_q@[t] == b.wire_q@[t] by {
            assert(ta[3 + t] == tb[3 + t]);
            assert(dec_rep(a.wire_q@[t] as nat) == dec_rep(b.wire_q@[t] as nat));
            crate::numerals::lemma_dec_rep_val(a.wire_q@[t] as nat);
            crate::numerals::lemma_dec_rep_val(b.wire_q@[t] as nat);
        }
    }
    assert forall|i: int| 0 <= i < a.img@.len() implies #[trigger] a.img@[i]@ == b.img@[i]@ by {
        assert forall|j: int| 0 <= j < ns implies a.img@[i]@[j] == b.img@[i]@[j] by {
            crate::rows::lemma_flat_index(a.img@, n_side, i, j);
            crate::rows::lemma_flat_index(b.img@, n_side, i, j);
            let off = i * ns + j;
            assert(0 <= off < ns * ns) by (nonlinear_arith)
                requires 0 <= i < ns, 0 <= j < ns, off == i * ns + j;
            assert(ta[3 + nw + off] == tb[3 + nw + off]);
            assert(dec_rep(flat_of(a.img@)[off] as nat) == dec_rep(flat_of(b.img@)[off] as nat));
            crate::numerals::lemma_dec_rep_val(flat_of(a.img@)[off] as nat);
            crate::numerals::lemma_dec_rep_val(flat_of(b.img@)[off] as nat);
        }
        assert(a.img@[i]@ =~= b.img@[i]@);
    }
}

} // verus!

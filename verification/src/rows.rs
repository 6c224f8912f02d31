//! Space-separated rows of numbers: the text table format for images and
//! events, together with the splitting primitive and the lemmas that make
//! joining and splitting inverse to one another.

use vstd::prelude::*;
use crate::numerals::{dec_rep, u64_to_string};

verus! {

/// Tokens joined with a single separator character between consecutive
/// tokens.
pub open spec fn join_sp(ts: Seq<Seq<char>>, sep: char) -> Seq<char>
    decreases ts.len(),
{
    if ts.len() == 0 {
        Seq::empty()
    } else if ts.len() == 1 {
        ts[0]
    } else {
        ts[0] + seq![sep] + join_sp(ts.drop_first(), sep)
    }
}

/// A token sequence has `c` nowhere.
pub open spec fn token_free(t: Seq<char>, c: char) -> bool {
    forall|i: int| 0 <= i < t.len() ==> t[i] != c
}

/// Every token lacks `c`.
pub open spec fn tokens_free(ts: Seq<Seq<char>>, c: char) -> bool {
    forall|i: int| 0 <= i < ts.len() ==> token_free(#[trigger] ts[i], c)
}

/// The text of one row: the decimal numerals of its entries, separated by
/// single spaces.
pub open spec fn row_rep(v: Seq<u64>) -> Seq<char> {
    join_sp(v.map_values(|n: u64| dec_rep(n as nat)), ' ')
}

/// The entries of a matrix given row by row, laid out as one flat row.
pub open spec fn flat_of(img: Seq<Vec<u64>>) -> Seq<u64> {
    img.map_values(|r: Vec<u64>| r@).flatten()
}

/// Appending one token extends the join by a separator and that token.
pub proof fn lemma_join_push(ts: Seq<Seq<char>>, t: Seq<char>, sep: char)
    ensures
        join_sp(ts.push(t), sep) == if ts.len() == 0 {
            t
        } else {
            join_sp(ts, sep) + seq![sep] + t
        },
    decreases ts.len(),
{
    let ex = ts.push(t);
    if ts.len() == 0 {
        assert(ex.len() == 1);
        assert(join_sp(ex, sep) == ex[0]);
        assert(ex[0] == t);
    } else if ts.len() == 1 {
        assert(ex.len() == 2);
        assert(ex.drop_first() =~= seq![t]);
        assert(join_sp(ex, sep) == ex[0] + seq![sep] + join_sp(seq![t], sep));
        assert(join_sp(seq![t], sep) == t);
        assert(ex[0] == ts[0]);
        assert(join_sp(ts, sep) == ts[0]);
    } else {
        lemma_join_push(ts.drop_first(), t, sep);
        assert(ex.drop_first() =~= ts.drop_first().push(t));
        assert(join_sp(ex, sep) == ex[0] + seq![sep] + join_sp(ts.drop_first().push(t), sep));
        assert(ex[0] == ts[0]);
        assert(join_sp(ts, sep) + seq![sep] + t
            =~= ts[0] + seq![sep] + (join_sp(ts.drop_first(), sep) + seq![sep] + t));
    }
}

/// Joining two non-empty token lists is joining each and putting one
/// separator between.
pub proof fn lemma_join_concat(a: Seq<Seq<char>>, b: Seq<Seq<char>>, sep: char)
    requires
        a.len() >= 1,
        b.len() >= 1,
    ensures
        join_sp(a + b, sep) == join_sp(a, sep) + seq![sep] + join_sp(b, sep),
    decreases a.len(),
{
    let w = a + b;
    if a.len() == 1 {
        assert(w.len() >= 2);
        assert(w.drop_first() =~= b);
        assert(w[0] == a[0]);
        assert(join_sp(w, sep) == a[0] + seq![sep] + join_sp(b, sep));
        assert(join_sp(a, sep) == a[0]);
    } else {
        lemma_join_concat(a.drop_first(), b, sep);
        assert(w.drop_first() =~= a.drop_first() + b);
        assert(w[0] == a[0]);
        assert(join_sp(w, sep) == a[0] + seq![sep] + join_sp(a.drop_first() + b, sep));
        assert(join_sp(a, sep) + seq![sep] + join_sp(b, sep)
            =~= a[0] + seq![sep] + (join_sp(a.drop_first(), sep) + seq![sep] + join_sp(b, sep)));
    }
}

/// A character that is neither the separator nor in any token is not in
/// the join.
pub proof fn lemma_join_free(ts: Seq<Seq<char>>, sep: char, c: char)
    requires
        c != sep,
        tokens_free(ts, c),
    ensures
        token_free(join_sp(ts, sep), c),
    decreases ts.len(),
{
    if ts.len() <= 1 {
    } else {
        assert(tokens_free(ts.drop_first(), c)) by {
            assert(forall|i: int| 0 <= i < ts.drop_first().len()
                ==> ts.drop_first()[i] == ts[i + 1]);
        }
        lemma_join_free(ts.drop_first(), sep, c);
        let j = join_sp(ts, sep);
        let t0 = ts[0];
        let rest = join_sp(ts.drop_first(), sep);
        assert(j == t0 + seq![sep] + rest);
        assert forall|i: int| 0 <= i < j.len() implies j[i] != c by {
            if i < t0.len() {
                assert(j[i] == t0[i]);
                assert(token_free(ts[0], c));
            } else if i == t0.len() {
                assert(j[i] == sep);
            } else {
                assert(j[i] == rest[i - t0.len() - 1]);
            }
        }
    }
}

/// The join of separator-free tokens begins with the first token, and the
/// first separator stands right after it (if any token follows).
proof fn lemma_join_head(ts: Seq<Seq<char>>, sep: char)
    requires
        ts.len() >= 1,
        tokens_free(ts, sep),
    ensures
        join_sp(ts, sep).len() >= ts[0].len(),
        forall|i: int| 0 <= i < ts[0].len() ==> join_sp(ts, sep)[i] == ts[0][i],
        ts.len() == 1 ==> join_sp(ts, sep).len() == ts[0].len(),
        ts.len() > 1 ==> join_sp(ts, sep).len() > ts[0].len()
            && join_sp(ts, sep)[ts[0].len() as int] == sep,
{
    if ts.len() > 1 {
        let j = join_sp(ts, sep);
        assert(j == ts[0] + seq![sep] + join_sp(ts.drop_first(), sep));
        assert(forall|i: int| 0 <= i < ts[0].len() ==> j[i] == ts[0][i]);
        assert(j[ts[0].len() as int] == sep);
    }
}

/// Separator-free tokens are recovered uniquely from their join.
pub proof fn lemma_join_injective(a: Seq<Seq<char>>, b: Seq<Seq<char>>, sep: char)
    requires
        a.len() >= 1,
        b.len() >= 1,
        tokens_free(a, sep),
        tokens_free(b, sep),
        join_sp(a, sep) == join_sp(b, sep),
    ensures
        a == b,
    decreases a.len(),
{
    lemma_join_head(a, sep);
    lemma_join_head(b, sep);
    let ja = join_sp(a, sep);
    let jb = join_sp(b, sep);
    assert(token_free(a[0], sep));
    assert(token_free(b[0], sep));
    if a.len() == 1 && b.len() == 1 {
        assert(a[0] =~= ja);
        assert(b[0] =~= jb);
        assert(a =~= b);
    } else if a.len() == 1 {
        assert(jb[b[0].len() as int] == sep);
        assert(ja[b[0].len() as int] == a[0][b[0].len() as int]);
        assert(false);
    } else if b.len() == 1 {
        assert(ja[a[0].len() as int] == sep);
        assert(jb[a[0].len() as int] == b[0][a[0].len() as int]);
        assert(false);
    } else {
        if a[0].len() < b[0].len() {
            assert(ja[a[0].len() as int] == sep);
            assert(jb[a[0].len() as int] == b[0][a[0].len() as int]);
            assert(false);
        }
        if b[0].len() < a[0].len() {
            assert(jb[b[0].len() as int] == sep);
            assert(ja[b[0].len() as int] == a[0][b[0].len() as int]);
            assert(false);
        }
        assert(a[0].len() == b[0].len());
        assert(a[0] =~= b[0]);
        let ra = join_sp(a.drop_first(), sep);
        let rb = join_sp(b.drop_first(), sep);
        assert(ja == a[0] + seq![sep] + ra);
        assert(jb == b[0] + seq![sep] + rb);
        assert(ra =~= rb) by {
            assert(forall|i: int| 0 <= i < ra.len() ==> ra[i] == ja[i + a[0].len() + 1]);
            assert(forall|i: int| 0 <= i < rb.len() ==> rb[i] == jb[i + b[0].len() + 1]);
            assert(ja.len() == a[0].len() + 1 + ra.len());
            assert(jb.len() == b[0].len() + 1 + rb.len());
        }
        assert(tokens_free(a.drop_first(), sep)) by {
            assert(forall|i: int| 0 <= i < a.drop_first().len()
                ==> a.drop_first()[i] == a[i + 1]);
        }
        assert(tokens_free(b.drop_first(), sep)) by {
            assert(forall|i: int| 0 <= i < b.drop_first().len()
                ==> b.drop_first()[i] == b[i + 1]);
        }
        lemma_join_injective(a.drop_first(), b.drop_first(), sep);
        assert(a =~= b) by {
            assert(forall|i: int| 1 <= i < a.len() ==> a[i] == a.drop_first()[i - 1]);
            assert(forall|i: int| 1 <= i < b.len() ==> b[i] == b.drop_first()[i - 1]);
        }
    }
}

/// Writes the entries separated by single spaces; the text is exactly the
/// row representation.
#[verifier::loop_isolation(false)]
pub fn vec_as_str(v: &Vec<u64>) -> (s: String)
    ensures
        s@ == row_rep(v@),
{
    if v.len() == 0 {
        let s = String::new();
        proof {
            assert(v@.map_values(|n: u64| dec_rep(n as nat)) =~= Seq::<Seq<char>>::empty());
        }
        return s;
    }
    let mut s = u64_to_string(v[0]);
    proof {
        assert(v@.take(1).map_values(|n: u64| dec_rep(n as nat))
            =~= seq![dec_rep(v@[0] as nat)]);
    }
    let mut i: usize = 1;
    while i < v.len()
        invariant
            1 <= i <= v@.len(),
            s@ == row_rep(v@.take(i as int)),
        decreases v@.len() - i,
    {
        let ghost toks = v@.take(i as int).map_values(|n: u64| dec_rep(n as nat));
        let num = u64_to_string(v[i]);
        s.append(" ");
        s.append(num.as_str());
        proof {
            reveal_strlit(" ");
            assert(" "@ =~= seq![' ']);
            lemma_join_push(toks, dec_rep(v@[i as int] as nat), ' ');
            assert(v@.take(i + 1).map_values(|n: u64| dec_rep(n as nat))
                =~= toks.push(dec_rep(v@[i as int] as nat)));
            assert(toks.len() == i);
            assert(s@ == join_sp(toks, ' ') + seq![' '] + dec_rep(v@[i as int] as nat));
        }
        i = i + 1;
    }
    proof {
        assert(v@.take(v@.len() as int) =~= v@);
    }
    s
}

/// One matrix row as text; the same space-separated row format.
pub fn row_as_str(row: &Vec<u64>) -> (s: String)
    ensures
        s@ == row_rep(row@),
{
    vec_as_str(row)
}

/// The whole matrix flattened row by row into one space-separated line.
#[verifier::loop_isolation(false)]
pub fn img_as_str_1d(img: &Vec<Vec<u64>>) -> (s: String)
    ensures
        s@ == row_rep(flat_of(img@)),
{
    let mut flat: Vec<u64> = Vec::new();
    let mut r: usize = 0;
    while r < img.len()
        invariant
            0 <= r <= img@.len(),
            flat@ == flat_of(img@.take(r as int)),
        decreases img@.len() - r,
    {
        let ghost before = flat@;
        let mut c: usize = 0;
        while c < img[r].len()
            invariant
                0 <= c <= img@[r as int]@.len(),
                r < img@.len(),
                flat@ == before + img@[r as int]@.take(c as int),
            decreases img@[r as int]@.len() - c,
        {
            flat.push(img[r][c]);
            proof {
                assert(img@[r as int]@.take(c + 1)
                    =~= img@[r as int]@.take(c as int).push(img@[r as int]@[c as int]));
                assert(flat@ =~= before + img@[r as int]@.take(c + 1));
            }
            c = c + 1;
        }
        proof {
            let vw = |row: Vec<u64>| row@;
            assert(img@[r as int]@.take(img@[r as int]@.len() as int) =~= img@[r as int]@);
            img@.take(r as int).map_values(vw).lemma_flatten_push(img@[r as int]@);
            assert(img@.take(r + 1).map_values(vw)
                =~= img@.take(r as int).map_values(vw).push(img@[r as int]@));
            assert(flat@ =~= flat_of(img@.take(r + 1)));
        }
        r = r + 1;
    }
    proof {
        assert(img@.take(img@.len() as int) =~= img@);
    }
    vec_as_str(&flat)
}

/// The matrix as one text block: rows joined by line breaks, with a
/// trailing line break.
pub open spec fn img2d_rep(img: Seq<Vec<u64>>) -> Seq<char> {
    join_sp(img.map_values(|r: Vec<u64>| row_rep(r@)), '\n') + seq!['\n']
}

/// Writes the matrix row per line, each row space-separated, ending with a
/// line break.
#[verifier::loop_isolation(false)]
pub fn img_as_str_2d(img: &Vec<Vec<u64>>) -> (s: String)
    ensures
        s@ == img2d_rep(img@),
{
    let mut s = String::new();
    if img.len() == 0 {
        s.append("\n");
        proof {
            reveal_strlit("\n");
            assert(img@.map_values(|r: Vec<u64>| row_rep(r@)) =~= Seq::<Seq<char>>::empty());
            assert(s@ =~= img2d_rep(img@));
        }
        return s;
    }
    let first = row_as_str(&img[0]);
    s.append(first.as_str());
    proof {
        assert(img@.take(1).map_values(|r: Vec<u64>| row_rep(r@))
            =~= seq![row_rep(img@[0]@)]);
    }
    let mut i: usize = 1;
    while i < img.len()
        invariant
            1 <= i <= img@.len(),
            s@ == join_sp(img@.take(i as int).map_values(|r: Vec<u64>| row_rep(r@)), '\n'),
        decreases img@.len() - i,
    {
        let ghost toks = img@.take(i as int).map_values(|r: Vec<u64>| row_rep(r@));
        let line = row_as_str(&img[i]);
        s.append("\n");
        s.append(line.as_str());
        proof {
            reveal_strlit("\n");
            assert("\n"@ =~= seq!['\n']);
            lemma_join_push(toks, row_rep(img@[i as int]@), '\n');
            assert(img@.take(i + 1).map_values(|r: Vec<u64>| row_rep(r@))
                =~= toks.push(row_rep(img@[i as int]@)));
            assert(toks.len() == i);
        }
        i = i + 1;
    }
    s.append("\n");
    proof {
        reveal_strlit("\n");
        assert("\n"@ =~= seq!['\n']);
        assert(img@.take(img@.len() as int) =~= img@);
    }
    s
}

/// Splits on single spaces: the unique separator-free decomposition whose
/// join is the input again. Empty tokens stand where spaces meet.
#[verifier::loop_isolation(false)]
pub fn split_spaces(s: &str) -> (r: Vec<String>)
    ensures
        r@.len() >= 1,
        tokens_free(r@.map_values(|t: String| t@), ' '),
        join_sp(r@.map_values(|t: String| t@), ' ') == s@,
{
    let len = s.unicode_len();
    let mut out: Vec<String> = Vec::new();
    let mut start: usize = 0;
    let mut i: usize = 0;
    while i < len
        invariant
            0 <= start <= i <= len,
            forall|k: int| start <= k < i ==> s@[k] != ' ',
            tokens_free(out@.map_values(|t: String| t@), ' '),
            join_sp(
                out@.map_values(|t: String| t@).push(s@.subrange(start as int, i as int)),
                ' ',
            ) == s@.take(i as int),
        decreases len - i,
    {
        let ghost toks = out@.map_values(|t: String| t@);
        let ghost tok = s@.subrange(start as int, i as int);
        let c = s.get_char(i);
        if c == ' ' {
            out.push(s.substring_char(start, i).to_owned());
            proof {
                let toks2 = out@.map_values(|t: String| t@);
                assert(toks2 =~= toks.push(tok));
                assert(tokens_free(toks2, ' ')) by {
                    assert(forall|k: int| 0 <= k < toks.len() ==> toks2[k] == toks[k]);
                    assert(token_free(tok, ' '));
                }
                let empty_tok = s@.subrange(i + 1 as int, i + 1 as int);
                assert(empty_tok =~= Seq::<char>::empty());
                lemma_join_push(toks2, empty_tok, ' ');
                assert(toks2.len() >= 1);
                assert(join_sp(toks2.push(empty_tok), ' ')
                    =~= join_sp(toks.push(tok), ' ') + seq![' ']);
                assert(s@.take(i + 1) =~= s@.take(i as int) + seq![' ']);
            }
            start = i + 1;
        } else {
            proof {
                lemma_join_push(toks, tok, ' ');
                let tok2 = s@.subrange(start as int, i + 1);
                lemma_join_push(toks, tok2, ' ');
                assert(tok2 =~= tok.push(s@[i as int]));
                assert(s@.take(i + 1) =~= s@.take(i as int).push(s@[i as int]));
                if toks.len() == 0 {
                    assert(join_sp(toks.push(tok2), ' ') =~= join_sp(toks.push(tok), ' ').push(s@[i as int]));
                } else {
                    assert(join_sp(toks.push(tok2), ' ')
                        =~= (join_sp(toks, ' ') + seq![' '] + tok).push(s@[i as int]));
                }
            }
        }
        i = i + 1;
    }
    let ghost pre_toks = out@.map_values(|t: String| t@);
    let ghost tok_final = s@.subrange(start as int, len as int);
    out.push(s.substring_char(start, len).to_owned());
    proof {
        let toks = out@.map_values(|t: String| t@);
        assert(toks =~= pre_toks.push(tok_final));
        assert(tokens_free(toks, ' ')) by {
            assert(forall|k: int| 0 <= k < pre_toks.len() ==> toks[k] == pre_toks[k]);
            assert(token_free(tok_final, ' '));
            assert(toks[toks.len() - 1] == tok_final);
        }
        assert(s@.take(len as int) =~= s@);
        assert(join_sp(toks, ' ') == s@);
    }
    out
}

/// A matrix whose rows all have one width flattens to their total count.
pub proof fn lemma_flat_len(img: Seq<Vec<u64>>, side: nat)
    requires
        forall|i: int| 0 <= i < img.len() ==> #[trigger] img[i]@.len() == side,
    ensures
        flat_of(img).len() == img.len() * side,
    decreases img.len(),
{
    let vw = |r: Vec<u64>| r@;
    if img.len() == 0 {
        assert(img.map_values(vw) =~= Seq::<Seq<u64>>::empty());
    } else {
        assert(forall|i: int| 0 <= i < img.drop_first().len()
            ==> #[trigger] img.drop_first()[i]@.len() == side) by {
            assert(forall|i: int| 0 <= i < img.drop_first().len()
                ==> img.drop_first()[i] == img[i + 1]);
        }
        lemma_flat_len(img.drop_first(), side);
        assert(img.map_values(vw).drop_first() =~= img.drop_first().map_values(vw));
        assert(img.map_values(vw).flatten()
            == img.map_values(vw).first() + img.map_values(vw).drop_first().flatten());
        assert(img.map_values(vw).first() == img[0]@);
        assert(side + (img.len() - 1) * side == img.len() * side) by (nonlinear_arith);
    }
}

/// The flat layout puts cell `(r, c)` at offset `r * side + c`.
pub proof fn lemma_flat_index(img: Seq<Vec<u64>>, side: nat, r: int, c: int)
    requires
        forall|i: int| 0 <= i < img.len() ==> #[trigger] img[i]@.len() == side,
        0 <= r < img.len(),
        0 <= c < side,
    ensures
        flat_of(img).len() == img.len() * side,
        flat_of(img)[r * side + c] == img[r]@[c],
    decreases r,
{
    lemma_flat_len(img, side);
    let vw = |q: Vec<u64>| q@;
    assert(img.map_values(vw).flatten()
        == img.map_values(vw).first() + img.map_values(vw).drop_first().flatten());
    assert(img.map_values(vw).drop_first() =~= img.drop_first().map_values(vw));
    assert(img.map_values(vw).first() == img[0]@);
    if r == 0 {
        assert(r * side + c == c) by (nonlinear_arith)
            requires r == 0;
        assert(img[0]@.len() == side);
        assert(flat_of(img)[c] == img[0]@[c]);
    } else {
        assert(forall|i: int| 0 <= i < img.drop_first().len()
            ==> #[trigger] img.drop_first()[i]@.len() == side) by {
            assert(forall|i: int| 0 <= i < img.drop_first().len()
                ==> img.drop_first()[i] == img[i + 1]);
        }
        lemma_flat_index(img.drop_first(), side, r - 1, c);
        assert(r * side + c - side == (r - 1) * side + c) by (nonlinear_arith);
        assert(r * side >= side) by (nonlinear_arith)
            requires r >= 1, side >= 0;
        assert(img[0]@.len() == side);
        assert(flat_of(img) == img[0]@ + flat_of(img.drop_first()));
        assert(r * side + c < img.len() * side) by (nonlinear_arith)
            requires 0 <= r, r < img.len(), 0 <= c, c < side;
        assert(flat_of(img).len() == img.len() * side);
        assert((img[0]@ + flat_of(img.drop_first()))[r * side + c]
            == flat_of(img.drop_first())[r * side + c - side]);
        assert(img.drop_first()[r - 1] == img[r]);
        assert(flat_of(img)[r * side + c] == img[r]@[c]);
    }
}

/// One wire column label of the text header.
pub open spec fn wire_col(i: nat) -> Seq<char> {
    " w_"@ + dec_rep(i)
}

/// All wire column labels up to `n`, in order.
pub open spec fn wire_cols(n: nat) -> Seq<char>
    decreases n,
{
    if n == 0 {
        Seq::empty()
    } else {
        wire_cols((n - 1) as nat) + wire_col((n - 1) as nat)
    }
}

/// One image column label of the text header.
pub open spec fn img_col(i: nat, j: nat) -> Seq<char> {
    " img_"@ + dec_rep(i) + "_"@ + dec_rep(j)
}

/// The image column labels of row `i`, up to column `m`.
pub open spec fn img_cols_row(i: nat, m: nat) -> Seq<char>
    decreases m,
{
    if m == 0 {
        Seq::empty()
    } else {
        img_cols_row(i, (m - 1) as nat) + img_col(i, (m - 1) as nat)
    }
}

/// The image column labels of the first `n` rows, `m` columns each.
pub open spec fn img_cols(n: nat, m: nat) -> Seq<char>
    decreases n,
{
    if n == 0 {
        Seq::empty()
    } else {
        img_cols((n - 1) as nat, m) + img_cols_row((n - 1) as nat, m)
    }
}

/// The full header line of the text table.
pub open spec fn header_rep(n_wires: nat, img_size: nat) -> Seq<char> {
    "event x0 y0"@ + wire_cols(n_wires) + img_cols(img_size, img_size) + "\n"@
}

/// Builds the header line: the fixed event and position columns, one
/// column per wire, one per image cell.
#[verifier::loop_isolation(false)]
pub fn header_as_str(n_wires: usize, img_size: usize) -> (s: String)
    ensures
        s@ == header_rep(n_wires as nat, img_size as nat),
{
    let mut s = "event x0 y0".to_owned();
    let mut w: usize = 0;
    while w < n_wires
        invariant
            0 <= w <= n_wires,
            s@ == "event x0 y0"@ + wire_cols(w as nat),
        decreases n_wires - w,
    {
        let num = u64_to_string(w as u64);
        s.append(" w_");
        s.append(num.as_str());
        proof {
            assert(s@ =~= "event x0 y0"@ + (wire_cols(w as nat) + (" w_"@ + dec_rep(w as nat))));
        }
        w = w + 1;
    }
    let mut i: usize = 0;
    while i < img_size
        invariant
            0 <= i <= img_size,
            s@ == "event x0 y0"@ + wire_cols(n_wires as nat) + img_cols(i as nat, img_size as nat),
        decreases img_size - i,
    {
        let mut j: usize = 0;
        while j < img_size
            invariant
                0 <= j <= img_size,
                i < img_size,
                s@ == "event x0 y0"@ + wire_cols(n_wires as nat)
                    + img_cols(i as nat, img_size as nat) + img_cols_row(i as nat, j as nat),
            decreases img_size - j,
        {
            let ni = u64_to_string(i as u64);
            let nj = u64_to_string(j as u64);
            s.append(" img_");
            s.append(ni.as_str());
            s.append("_");
            s.append(nj.as_str());
            proof {
                assert(s@ =~= "event x0 y0"@ + wire_cols(n_wires as nat)
                    + img_cols(i as nat, img_size as nat)
                    + (img_cols_row(i as nat, j as nat)
                        + (" img_"@ + dec_rep(i as nat) + "_"@ + dec_rep(j as nat))));
            }
            j = j + 1;
        }
        proof {
            assert(s@ =~= "event x0 y0"@ + wire_cols(n_wires as nat)
                + (img_cols(i as nat, img_size as nat) + img_cols_row(i as nat, img_size as nat)));
        }
        i = i + 1;
    }
    s.append("\n");
    proof {
        assert(s@ =~= header_rep(n_wires as nat, img_size as nat));
    }
    s
}

/// One wire field name of the columnar schema.
pub open spec fn wire_name(i: nat) -> Seq<char> {
    "wire_"@ + dec_rep(i)
}

/// One image field name of the columnar schema.
pub open spec fn img_name(i: nat, j: nat) -> Seq<char> {
    "img_"@ + dec_rep(i) + "_"@ + dec_rep(j)
}

/// The field names of the columnar output schema: the event number, the
/// two position coordinates, one field per wire, one per image cell.
#[verifier::loop_isolation(false)]
pub fn schema_field_names(n_wires: usize, img_size: usize) -> (r: Vec<String>)
    ensures
        r@.len() == 3 + n_wires as int + img_size as int * img_size as int,
        r@[0]@ == "event"@,
        r@[1]@ == "x"@,
        r@[2]@ == "y"@,
        forall|w: int| 0 <= w < n_wires ==> r@[3 + w]@ == #[trigger] wire_name(w as nat),
        forall|i: int, j: int| 0 <= i < img_size && 0 <= j < img_size
            ==> r@[3 + n_wires + i * img_size as int + j]@ == #[trigger] img_name(i as nat, j as nat),
{
    let mut r: Vec<String> = Vec::new();
    r.push("event".to_owned());
    r.push("x".to_owned());
    r.push("y".to_owned());
    let mut w: usize = 0;
    while w < n_wires
        invariant
            0 <= w <= n_wires,
            r@.len() == 3 + w,
            r@[0]@ == "event"@,
            r@[1]@ == "x"@,
            r@[2]@ == "y"@,
            forall|k: int| 0 <= k < w ==> r@[3 + k]@ == #[trigger] wire_name(k as nat),
        decreases n_wires - w,
    {
        let num = u64_to_string(w as u64);
        let name = "wire_".to_owned().concat(num.as_str());
        let ghost nv = name@;
        r.push(name);
        proof {
            assert(nv =~= wire_name(w as nat));
        }
        w = w + 1;
    }
    let mut i: usize = 0;
    while i < img_size
        invariant
            0 <= i <= img_size,
            r@.len() == 3 + n_wires + i * img_size as int,
            r@[0]@ == "event"@,
            r@[1]@ == "x"@,
            r@[2]@ == "y"@,
            forall|k: int| 0 <= k < n_wires ==> r@[3 + k]@ == #[trigger] wire_name(k as nat),
            forall|a: int, b: int| 0 <= a < i && 0 <= b < img_size
                ==> r@[3 + n_wires + a * img_size as int + b]@ == #[trigger] img_name(a as nat, b as nat),
        decreases img_size - i,
    {
        let mut j: usize = 0;
        while j < img_size
            invariant
                0 <= j <= img_size,
                i < img_size,
                r@.len() == 3 + n_wires + i * img_size as int + j,
                r@[0]@ == "event"@,
                r@[1]@ == "x"@,
                r@[2]@ == "y"@,
                forall|k: int| 0 <= k < n_wires ==> r@[3 + k]@ == #[trigger] wire_name(k as nat),
                forall|a: int, b: int| 0 <= a < i && 0 <= b < img_size
                    ==> r@[3 + n_wires + a * img_size as int + b]@ == #[trigger] img_name(a as nat, b as nat),
                forall|b: int| 0 <= b < j
                    ==> r@[3 + n_wires + i * img_size as int + b]@ == #[trigger] img_name(i as nat, b as nat),
            decreases img_size - j,
        {
            let ni = u64_to_string(i as u64);
            let nj = u64_to_string(j as u64);
            let name = "img_".to_owned().concat(ni.as_str()).concat("_").concat(nj.as_str());
            let ghost nv = name@;
            let ghost pre = r@;
            r.push(name);
            proof {
                assert(nv =~= img_name(i as nat, j as nat));
                let m = img_size as int;
                assert forall|a: int, b: int| 0 <= a < i && 0 <= b < img_size
                    implies r@[3 + n_wires + a * m + b]@ == #[trigger] img_name(a as nat, b as nat) by {
                    assert(a * m + b < i * m) by (nonlinear_arith)
                        requires a + 1 <= i as int, 0 <= b, b < m;
                    assert(r@[3 + n_wires + a * m + b] == pre[3 + n_wires + a * m + b]);
                }
            }
            j = j + 1;
        }
        proof {
            assert forall|a: int, b: int| 0 <= a < i + 1 && 0 <= b < img_size
                implies r@[3 + n_wires + a * img_size as int + b]@ == #[trigger] img_name(a as nat, b as nat) by {
                if a < i {
                } else {
                    assert(a == i);
                }
            }
            assert((i + 1) * img_size as int == i * img_size as int + img_size as int)
                by (nonlinear_arith);
        }
        i = i + 1;
    }
    proof {
        assert(i == img_size);
        assert(i * img_size as int == img_size as int * img_size as int);
    }
    r
}

} // verus!

use crate::grid::{lemma_idx_inj, lemma_row_major, Elem, Grid, GridModel, Pos};
use vstd::prelude::*;

verus! {

/// Why loading a grid description failed. The variants mirror the places
/// where loading can go wrong, in the order they are checked: a missing
/// header line, a missing numeric field on a header line, a field that is
/// not a (machine-sized) non-negative integer, start or end out of bounds,
/// and a cell count that does not match `width * height`.
#[derive(Debug, Copy, Clone, PartialEq, Eq, Structural)]
pub enum LoadError {
    MissingLine,
    MissingField,
    BadNumber,
    StartOutOfBounds,
    EndOutOfBounds,
    SizeMismatch,
}

/// Whitespace that separates tokens: space, tab, newline, vertical tab,
/// form feed, carriage return (the ASCII whitespace bytes).
pub open spec fn is_space(b: u8) -> bool {
    b == 32 || b == 9 || b == 10 || b == 11 || b == 12 || b == 13
}

pub open spec fn is_digit(b: u8) -> bool {
    48 <= b <= 57
}

/// Index of the first line feed in `s`, or `s.len()` if there is none.
pub open spec fn line_break(s: Seq<u8>) -> int
    decreases s.len(),
{
    if s.len() == 0 {
        0
    } else if s[0] == 10 {
        0
    } else {
        1 + line_break(s.drop_first())
    }
}

/// Length of the whitespace-free token at the head of `s` (0 when `s` starts
/// with whitespace or is empty).
pub open spec fn token_len(s: Seq<u8>) -> int
    decreases s.len(),
{
    if s.len() == 0 || is_space(s[0]) {
        0
    } else {
        1 + token_len(s.drop_first())
    }
}

proof fn lemma_token_len_le(s: Seq<u8>)
    ensures
        0 <= token_len(s) <= s.len(),
    decreases s.len(),
{
    if s.len() > 0 && !is_space(s[0]) {
        lemma_token_len_le(s.drop_first());
    }
}

/// The whitespace-separated tokens of `s`, in order.
pub open spec fn tokens_of(s: Seq<u8>) -> Seq<Seq<u8>>
    decreases s.len(),
    when s.len() >= 0
    via tokens_of_decreases
{
    if s.len() == 0 {
        Seq::empty()
    } else if is_space(s[0]) {
        tokens_of(s.drop_first())
    } else {
        seq![s.take(token_len(s))] + tokens_of(s.skip(token_len(s)))
    }
}

#[via_fn]
proof fn tokens_of_decreases(s: Seq<u8>) {
    if s.len() > 0 && !is_space(s[0]) {
        lemma_token_len_le(s.drop_first());
        assert(token_len(s) == 1 + token_len(s.drop_first()));
    }
}

/// Numeric value of a digit string, most significant digit first.
pub open spec fn digits_val(s: Seq<u8>) -> int
    decreases s.len(),
{
    if s.len() == 0 {
        0
    } else {
        digits_val(s.drop_last()) * 10 + (s.last() - 48)
    }
}

/// A non-empty, all-digit string.
pub open spec fn digits(s: Seq<u8>) -> bool {
    s.len() > 0 && forall|k: int| 0 <= k < s.len() ==> is_digit(#[trigger] s[k])
}

/// The shape accepted when parsing an unsigned machine integer: digits, with
/// one optional leading plus sign.
pub open spec fn numeric(s: Seq<u8>) -> bool {
    if s.len() > 0 && s[0] == 43 {
        digits(s.drop_first())
    } else {
        digits(s)
    }
}

pub open spec fn num_val(s: Seq<u8>) -> int {
    if s.len() > 0 && s[0] == 43 {
        digits_val(s.drop_first())
    } else {
        digits_val(s)
    }
}

/// The token parses as a `usize`: right shape, and the value fits.
pub open spec fn parses_usize(s: Seq<u8>) -> bool {
    numeric(s) && num_val(s) <= usize::MAX
}

/// A map token is a wall unless its first character is `'0'`.
pub open spec fn wall_elem(t: Seq<u8>) -> Elem {
    if t.len() > 0 && t[0] != 48 {
        Elem::Wall
    } else {
        Elem::Uncheck(0)
    }
}

/// The views of a vector of tokens.
pub open spec fn views_of(ts: Seq<Vec<u8>>) -> Seq<Seq<u8>> {
    ts.map_values(|t: Vec<u8>| t@)
}

/// Reading the `i`-th numeric field of a tokenized line, with the error that
/// reading it yields: the field may be missing, or fail to parse.
pub open spec fn spec_field(toks: Seq<Seq<u8>>, i: int) -> Result<int, LoadError> {
    if toks.len() <= i {
        Err(LoadError::MissingField)
    } else if !parses_usize(toks[i]) {
        Err(LoadError::BadNumber)
    } else {
        Ok(num_val(toks[i]))
    }
}

/// Assembling a grid from the parsed header fields and the map tokens,
/// with the bounds and size checks in the order they are made.
pub open spec fn spec_make_grid(
    w: int,
    h: int,
    sx: int,
    sy: int,
    ex: int,
    ey: int,
    mtoks: Seq<Seq<u8>>,
) -> Result<GridModel, LoadError> {
    let cells0 = mtoks.map_values(|t: Seq<u8>| wall_elem(t));
    if !(sx < w && sy < h) {
        Err(LoadError::StartOutOfBounds)
    } else if !(ex < w && ey < h) {
        Err(LoadError::EndOutOfBounds)
    } else if cells0.len() != w * h {
        Err(LoadError::SizeMismatch)
    } else {
        let start = Pos { x: sx as usize, y: sy as usize };
        let end = Pos { x: ex as usize, y: ey as usize };
        let cells = cells0.update(sx + w * sy, Elem::Start).update(ex + w * ey, Elem::End);
        Ok(GridModel { width: w, height: h, start, end, cells })
    }
}

/// The whole grammar of a grid description, over raw bytes: a first line
/// `width height`, a second line `start_x start_y end_x end_y`, then
/// `width * height` whitespace-separated cell tokens on the remaining lines.
/// The result is exactly what loading returns, error cases included.
pub open spec fn spec_parse(s: Seq<u8>) -> Result<GridModel, LoadError> {
    if s.len() == 0 {
        Err(LoadError::MissingLine)
    } else {
        let nl1 = line_break(s);
        let t1 = tokens_of(s.take(nl1));
        let rest1 = if nl1 < s.len() {
            s.skip(nl1 + 1)
        } else {
            Seq::<u8>::empty()
        };
        match spec_field(t1, 0) {
            Err(e) => Err(e),
            Ok(w) => match spec_field(t1, 1) {
                Err(e) => Err(e),
                Ok(h) => {
                    if rest1.len() == 0 {
                        Err(LoadError::MissingLine)
                    } else {
                        let nl2 = line_break(rest1);
                        let t2 = tokens_of(rest1.take(nl2));
                        let rest2 = if nl2 < rest1.len() {
                            rest1.skip(nl2 + 1)
                        } else {
                            Seq::<u8>::empty()
                        };
                        match spec_field(t2, 0) {
                            Err(e) => Err(e),
                            Ok(sx) => match spec_field(t2, 1) {
                                Err(e) => Err(e),
                                Ok(sy) => match spec_field(t2, 2) {
                                    Err(e) => Err(e),
                                    Ok(ex) => match spec_field(t2, 3) {
                                        Err(e) => Err(e),
                                        Ok(ey) => spec_make_grid(
                                            w,
                                            h,
                                            sx,
                                            sy,
                                            ex,
                                            ey,
                                            tokens_of(rest2),
                                        ),
                                    },
                                },
                            },
                        }
                    }
                },
            },
        }
    }
}

/// Loading is a function of the bytes alone: two grids loaded from the same
/// description are identical in every part.
pub proof fn lemma_load_deterministic(s: Seq<u8>, g1: GridModel, g2: GridModel)
    requires
        spec_parse(s) == Ok::<GridModel, LoadError>(g1),
        spec_parse(s) == Ok::<GridModel, LoadError>(g2),
    ensures
        g1 == g2,
{
}

proof fn lemma_line_break_at(s: Seq<u8>, i: int)
    requires
        0 <= i <= s.len(),
        forall|k: int| 0 <= k < i ==> s[k] != 10,
        i == s.len() || s[i] == 10,
    ensures
        line_break(s) == i,
    decreases i,
{
    if i == 0 {
    } else {
        assert(s[0] != 10);
        assert forall|k: int| 0 <= k < i - 1 implies s.drop_first()[k] != 10 by {
            assert(s.drop_first()[k] == s[k + 1]);
        }
        if i < s.len() {
            assert(s.drop_first()[i - 1] == s[i]);
        }
        lemma_line_break_at(s.drop_first(), i - 1);
    }
}

proof fn lemma_token_len_at(s: Seq<u8>, j: int)
    requires
        0 < j <= s.len(),
        forall|k: int| 0 <= k < j ==> !is_space(#[trigger] s[k]),
        j == s.len() || is_space(s[j]),
    ensures
        token_len(s) == j,
    decreases j,
{
    assert(!is_space(s[0]));
    if j == 1 {
        let t = s.drop_first();
        if s.len() > 1 {
            assert(t[0] == s[1]);
            assert(is_space(t[0]));
            assert(token_len(t) == 0);
        } else {
            assert(t.len() == 0);
            assert(token_len(t) == 0);
        }
        assert(token_len(s) == 1 + token_len(t));
    } else {
        let t = s.drop_first();
        assert forall|k: int| 0 <= k < j - 1 implies !is_space(#[trigger] t[k]) by {
            assert(t[k] == s[k + 1]);
        }
        if j < s.len() {
            assert(t[j - 1] == s[j]);
        }
        lemma_token_len_at(t, j - 1);
    }
}

proof fn lemma_digits_val_nonneg(s: Seq<u8>)
    requires
        forall|k: int| 0 <= k < s.len() ==> is_digit(#[trigger] s[k]),
    ensures
        digits_val(s) >= 0,
    decreases s.len(),
{
    if s.len() > 0 {
        assert forall|k: int| 0 <= k < s.drop_last().len() implies is_digit(
            #[trigger] s.drop_last()[k],
        ) by {
            assert(s.drop_last()[k] == s[k]);
        }
        lemma_digits_val_nonneg(s.drop_last());
    }
}

proof fn lemma_digits_val_mono(s: Seq<u8>, i: int)
    requires
        0 <= i <= s.len(),
        forall|k: int| 0 <= k < s.len() ==> is_digit(#[trigger] s[k]),
    ensures
        digits_val(s.take(i)) <= digits_val(s),
    decreases s.len() - i,
{
    if i == s.len() {
        assert(s.take(i) =~= s);
    } else {
        assert forall|k: int| 0 <= k < s.take(i).len() implies is_digit(
            #[trigger] s.take(i)[k],
        ) by {
            assert(s.take(i)[k] == s[k]);
        }
        lemma_digits_val_nonneg(s.take(i));
        assert(s.take(i + 1).drop_last() =~= s.take(i));
        assert(s.take(i + 1).last() == s[i]);
        assert(digits_val(s.take(i + 1)) == digits_val(s.take(i)) * 10 + (s[i] - 48));
        lemma_digits_val_mono(s, i + 1);
    }
}

fn is_space_b(b: u8) -> (r: bool)
    ensures
        r == is_space(b),
{
    b == 32 || b == 9 || b == 10 || b == 11 || b == 12 || b == 13
}

/// Index of the first line feed at or after `from`, or `bytes.len()`.
fn find_nl(bytes: &Vec<u8>, from: usize) -> (r: usize)
    requires
        from <= bytes@.len(),
    ensures
        from <= r <= bytes@.len(),
        forall|k: int| from <= k < r ==> bytes@[k] != 10,
        r == bytes@.len() || bytes@[r as int] == 10,
{
    let mut i: usize = from;
    while i < bytes.len()
        invariant_except_break
            from <= i <= bytes@.len(),
            forall|k: int| from <= k < i ==> bytes@[k] != 10,
        ensures
            from <= i <= bytes@.len(),
            forall|k: int| from <= k < i ==> bytes@[k] != 10,
            i == bytes@.len() || bytes@[i as int] == 10,
        decreases bytes@.len() - i,
    {
        if bytes[i] == 10 {
            break ;
        }
        i += 1;
    }
    i
}

/// The whitespace-separated tokens of `bytes[from..to]`, each as its own
/// byte vector. Every returned token is non-empty.
fn tokenize(bytes: &Vec<u8>, from: usize, to: usize) -> (r: Vec<Vec<u8>>)
    requires
        from <= to <= bytes@.len(),
    ensures
        views_of(r@) == tokens_of(bytes@.subrange(from as int, to as int)),
        forall|k: int| 0 <= k < r@.len() ==> (#[trigger] r@[k])@.len() >= 1,
{
    let ghost s = bytes@.subrange(from as int, to as int);
    let mut r: Vec<Vec<u8>> = Vec::new();
    let mut i: usize = from;
    proof {
        assert(views_of(r@) =~= Seq::<Seq<u8>>::empty());
    }
    while i < to
        invariant
            from <= i <= to <= bytes@.len(),
            s == bytes@.subrange(from as int, to as int),
            tokens_of(s) == views_of(r@) + tokens_of(bytes@.subrange(i as int, to as int)),
            forall|k: int| 0 <= k < r@.len() ==> (#[trigger] r@[k])@.len() >= 1,
        decreases to - i,
    {
        let ghost suf = bytes@.subrange(i as int, to as int);
        if is_space_b(bytes[i]) {
            proof {
                assert(suf[0] == bytes@[i as int]);
                assert(suf.drop_first() =~= bytes@.subrange(i as int + 1, to as int));
                assert(tokens_of(suf) == tokens_of(suf.drop_first()));
            }
            i += 1;
        } else {
            let mut j: usize = i + 1;
            while j < to
                invariant_except_break
                    i < j <= to <= bytes@.len(),
                    forall|k: int| i <= k < j ==> !is_space(#[trigger] bytes@[k]),
                ensures
                    i < j <= to <= bytes@.len(),
                    forall|k: int| i <= k < j ==> !is_space(#[trigger] bytes@[k]),
                    j == to || is_space(bytes@[j as int]),
                decreases to - j,
            {
                if is_space_b(bytes[j]) {
                    break ;
                }
                j += 1;
            }
            let mut tok: Vec<u8> = Vec::new();
            let mut m: usize = i;
            proof {
                assert(tok@ =~= bytes@.subrange(i as int, i as int));
            }
            while m < j
                invariant
                    i <= m <= j <= bytes@.len(),
                    tok@ == bytes@.subrange(i as int, m as int),
                decreases j - m,
            {
                proof {
                    assert(bytes@.subrange(i as int, m as int + 1) =~= bytes@.subrange(
                        i as int,
                        m as int,
                    ).push(bytes@[m as int]));
                }
                tok.push(bytes[m]);
                m += 1;
            }
            let ghost pre = r@;
            proof {
                assert forall|k: int| 0 <= k < j - i implies !is_space(#[trigger] suf[k]) by {
                    assert(suf[k] == bytes@[i + k]);
                }
                if j < to {
                    assert(suf[j - i] == bytes@[j as int]);
                }
                lemma_token_len_at(suf, j - i);
                assert(tokens_of(suf) == seq![suf.take(j - i)] + tokens_of(suf.skip(j - i)));
                assert(suf.take(j - i) =~= bytes@.subrange(i as int, j as int));
                assert(suf.take(j - i) == tok@);
                assert(suf.skip(j - i) =~= bytes@.subrange(j as int, to as int));
            }
            r.push(tok);
            proof {
                assert(views_of(r@) =~= views_of(pre).push(tok@));
                assert(views_of(pre) + tokens_of(suf) =~= views_of(pre).push(tok@) + tokens_of(
                    bytes@.subrange(j as int, to as int),
                ));
            }
            i = j;
        }
    }
    proof {
        assert(bytes@.subrange(i as int, to as int).len() == 0);
        assert(tokens_of(bytes@.subrange(i as int, to as int)) =~= Seq::<Seq<u8>>::empty());
        assert(views_of(r@) =~= tokens_of(s));
    }
    r
}

/// Parses one token as a `usize`, accepting an optional leading plus sign,
/// and failing exactly on malformed tokens and on values that do not fit.
fn parse_usize(t: &Vec<u8>) -> (r: Option<usize>)
    ensures
        match r {
            Some(v) => parses_usize(t@) && v as int == num_val(t@),
            None => !parses_usize(t@),
        },
{
    let n = t.len();
    if n == 0 {
        return None;
    }
    let st: usize = if t[0] == 43 {
        1
    } else {
        0
    };
    if st == n {
        return None;
    }
    let ghost d = t@.skip(st as int);
    proof {
        if st == 1 {
            assert(d =~= t@.drop_first());
        } else {
            assert(d =~= t@);
        }
    }
    let mut acc: usize = 0;
    let mut i: usize = st;
    proof {
        assert(d.take(0) =~= Seq::<u8>::empty());
    }
    while i < n
        invariant
            st <= i <= n == t@.len(),
            st < n,
            st == 0 || st == 1,
            st == 1 ==> t@[0] == 43,
            st == 0 ==> (t@.len() == 0 || t@[0] != 43),
            d == t@.skip(st as int),
            st == 0 ==> d == t@,
            st == 1 ==> d == t@.drop_first(),
            d.len() == n - st,
            forall|k: int| 0 <= k < i - st ==> is_digit(#[trigger] d[k]),
            acc as int == digits_val(d.take(i - st)),
        decreases n - i,
    {
        let b = t[i];
        proof {
            assert(d[i - st] == t@[i as int]);
        }
        if b < 48 || b > 57 {
            proof {
                assert(!is_digit(d[i - st]));
                assert(!digits(d));
                if st == 1 {
                    assert(d == t@.drop_first());
                    assert(!digits(t@.drop_first()));
                } else {
                    assert(d == t@);
                    assert(!digits(t@));
                }
                assert(!numeric(t@));
            }
            return None;
        }
        let dig = (b - 48) as usize;
        proof {
            lemma_digits_val_nonneg(d.take(i - st));
            assert(d.take(i - st + 1).drop_last() =~= d.take(i - st));
            assert(d.take(i - st + 1).last() == d[i - st]);
            assert(digits_val(d.take(i - st + 1)) == acc * 10 + (b - 48));
        }
        let acc10 = match acc.checked_mul(10) {
            Some(x) => x,
            None => {
                proof {
                    if parses_usize(t@) {
                        if st == 1 {
                            assert(digits(t@.drop_first()));
                            assert(d == t@.drop_first());
                        }
                        assert(digits(d));
                        lemma_digits_val_mono(d, i - st + 1);
                        assert(num_val(t@) == digits_val(d));
                        assert(digits_val(d) > usize::MAX);
                    }
                }
                return None;
            },
        };
        let acc2 = match acc10.checked_add(dig) {
            Some(x) => x,
            None => {
                proof {
                    if parses_usize(t@) {
                        if st == 1 {
                            assert(digits(t@.drop_first()));
                            assert(d == t@.drop_first());
                        }
                        assert(digits(d));
                        lemma_digits_val_mono(d, i - st + 1);
                        assert(num_val(t@) == digits_val(d));
                        assert(digits_val(d) > usize::MAX);
                    }
                }
                return None;
            },
        };
        acc = acc2;
        i += 1;
    }
    proof {
        assert(d.take(n - st) =~= d);
        assert(digits(d));
        if st == 1 {
            assert(d == t@.drop_first());
        }
        assert(numeric(t@));
        assert(num_val(t@) == digits_val(d));
        assert(parses_usize(t@));
    }
    Some(acc)
}

/// Reads the `i`-th numeric field of a tokenized line.
fn field(toks: &Vec<Vec<u8>>, i: usize) -> (r: Result<usize, LoadError>)
    ensures
        match r {
            Ok(v) => spec_field(views_of(toks@), i as int) == Ok::<int, LoadError>(v as int),
            Err(e) => spec_field(views_of(toks@), i as int) == Err::<int, LoadError>(e),
        },
{
    if i >= toks.len() {
        return Err(LoadError::MissingField);
    }
    match parse_usize(&toks[i]) {
        Some(v) => Ok(v),
        None => Err(LoadError::BadNumber),
    }
}

/// Parses a textual grid description: line 1 holds `width height`, line 2
/// holds `start_x start_y end_x end_y`, and the remaining lines hold
/// `width * height` whitespace-separated cell tokens, a token being a wall
/// unless its first character is `'0'`. Exactly the descriptions accepted
/// by `spec_parse` load, to exactly the grid it gives; every returned grid
/// is well-formed and carries no discovered distances.
pub fn parse_grid(bytes: &Vec<u8>) -> (r: Result<Grid, LoadError>)
    ensures
        match r {
            Ok(g) => spec_parse(bytes@) == Ok::<GridModel, LoadError>(g@) && g@.fresh()
                && g@.zero_dists(),
            Err(e) => spec_parse(bytes@) == Err::<GridModel, LoadError>(e),
        },
{
    let ghost s = bytes@;
    if bytes.len() == 0 {
        return Err(LoadError::MissingLine);
    }
    let i1 = find_nl(bytes, 0);
    proof {
        lemma_line_break_at(s, i1 as int);
        assert(bytes@.subrange(0, i1 as int) =~= s.take(line_break(s)));
    }
    let t1 = tokenize(bytes, 0, i1);
    let w = match field(&t1, 0) {
        Ok(v) => v,
        Err(e) => {
            return Err(e);
        },
    };
    let h = match field(&t1, 1) {
        Ok(v) => v,
        Err(e) => {
            return Err(e);
        },
    };
    let r1: usize = if i1 < bytes.len() {
        i1 + 1
    } else {
        bytes.len()
    };
    let ghost rest1 = if line_break(s) < s.len() {
        s.skip(line_break(s) + 1)
    } else {
        Seq::<u8>::empty()
    };
    proof {
        assert(rest1 =~= s.subrange(r1 as int, s.len() as int));
    }
    if r1 == bytes.len() {
        return Err(LoadError::MissingLine);
    }
    let i2 = find_nl(bytes, r1);
    proof {
        assert forall|k: int| 0 <= k < i2 - r1 implies rest1[k] != 10 by {
            assert(rest1[k] == bytes@[r1 + k]);
        }
        if (i2 as int) < s.len() {
            assert(rest1[i2 - r1] == bytes@[i2 as int]);
        }
        lemma_line_break_at(rest1, i2 as int - r1 as int);
        assert(bytes@.subrange(r1 as int, i2 as int) =~= rest1.take(line_break(rest1)));
    }
    let t2 = tokenize(bytes, r1, i2);
    let sx = match field(&t2, 0) {
        Ok(v) => v,
        Err(e) => {
            return Err(e);
        },
    };
    let sy = match field(&t2, 1) {
        Ok(v) => v,
        Err(e) => {
            return Err(e);
        },
    };
    let ex = match field(&t2, 2) {
        Ok(v) => v,
        Err(e) => {
            return Err(e);
        },
    };
    let ey = match field(&t2, 3) {
        Ok(v) => v,
        Err(e) => {
            return Err(e);
        },
    };
    let r2: usize = if i2 < bytes.len() {
        i2 + 1
    } else {
        bytes.len()
    };
    let ghost rest2 = if line_break(rest1) < rest1.len() {
        rest1.skip(line_break(rest1) + 1)
    } else {
        Seq::<u8>::empty()
    };
    proof {
        assert(rest2 =~= s.subrange(r2 as int, s.len() as int));
    }
    let mtoks = tokenize(bytes, r2, bytes.len());
    let ghost mviews = tokens_of(rest2);

    let mut cells: Vec<Elem> = Vec::new();
    let mut m: usize = 0;
    proof {
        assert(cells@ =~= mviews.take(0).map_values(|t: Seq<u8>| wall_elem(t)));
    }
    while m < mtoks.len()
        invariant
            m <= mtoks@.len(),
            views_of(mtoks@) == mviews,
            forall|k: int| 0 <= k < mtoks@.len() ==> (#[trigger] mtoks@[k])@.len() >= 1,
            cells@ == mviews.take(m as int).map_values(|t: Seq<u8>| wall_elem(t)),
        decreases mtoks@.len() - m,
    {
        let t = &mtoks[m];
        let e: Elem = if t[0] != 48 {
            Elem::Wall
        } else {
            Elem::Uncheck(0)
        };
        proof {
            assert(mviews[m as int] == mtoks@[m as int]@);
            assert(e == wall_elem(mviews[m as int]));
            assert(mviews.take(m as int + 1).map_values(|t: Seq<u8>| wall_elem(t)) =~= mviews.take(
                m as int,
            ).map_values(|t: Seq<u8>| wall_elem(t)).push(wall_elem(mviews[m as int])));
        }
        cells.push(e);
        m += 1;
    }
    let ghost cells0 = mviews.map_values(|t: Seq<u8>| wall_elem(t));
    proof {
        assert(mviews.take(mviews.len() as int) =~= mviews);
        assert(cells@ == cells0);
    }

    if !(sx < w && sy < h) {
        return Err(LoadError::StartOutOfBounds);
    }
    if !(ex < w && ey < h) {
        return Err(LoadError::EndOutOfBounds);
    }
    let total = match w.checked_mul(h) {
        Some(t) => t,
        None => {
            let l = cells.len();
            proof {
                assert(l == cells0.len());
                assert(cells0.len() != w * h);
            }
            return Err(LoadError::SizeMismatch);
        },
    };
    if cells.len() != total {
        return Err(LoadError::SizeMismatch);
    }

    let start = Pos { x: sx, y: sy };
    let end = Pos { x: ex, y: ey };
    proof {
        lemma_row_major(sx as int, sy as int, w as int, h as int);
        lemma_row_major(ex as int, ey as int, w as int, h as int);
        assert((w * h) as int == (w as int) * (h as int));
        assert(sx + (w as int) * (sy as int) < total as int);
        assert(ex + (w as int) * (ey as int) < total as int);
    }
    let si = sx + w * sy;
    let ei = ex + w * ey;
    cells[si] = Elem::Start;
    cells[ei] = Elem::End;

    let g = Grid { width: w, height: h, start, end, cells };
    proof {
        let m0 = GridModel {
            width: w as int,
            height: h as int,
            start,
            end,
            cells: cells0.update(sx as int + w as int * sy, Elem::Start).update(
                ex as int + w as int * ey,
                Elem::End,
            ),
        };
        assert(g@ =~= m0);
        assert(spec_parse(s) == Ok::<GridModel, LoadError>(m0));
        lemma_idx_inj(g@);
        assert(g@.idx(end) == ei);
        assert(g@.idx(start) == si);
        if start != end {
            assert(g@.idx(start) != g@.idx(end));
        }
        assert(g@.wf());
        assert forall|i: int| 0 <= i < g@.cells.len() implies crate::grid::dist_of(
            #[trigger] g@.cells[i],
        ) == 0 by {
            if i != si && i != ei {
                assert(g@.cells[i] == cells0[i]);
                assert(cells0[i] == wall_elem(mviews[i]));
            }
        }
        assert forall|i: int|
            0 <= i < g@.cells.len() implies {
                ||| #[trigger] g@.cells[i] == Elem::Uncheck(0u32)
                ||| g@.cells[i] == Elem::Wall
                ||| (i == g@.idx(g@.start) && g@.start != g@.end && g@.cells[i] == Elem::Start)
                ||| (i == g@.idx(g@.end) && g@.cells[i] == Elem::End)
            } by {
            if i != si && i != ei {
                assert(g@.cells[i] == cells0[i]);
                assert(cells0[i] == wall_elem(mviews[i]));
            }
        }
        assert(g@.fresh());
    }
    Ok(g)
}

} // verus!

//! The textual model of a grid: rows of cells joined by single break
//! characters, together with the flattened (break-free) form that the
//! difference engine works on.

use vstd::arithmetic::div_mod::lemma_fundamental_div_mod_converse;
use vstd::prelude::*;
use vstd::string::StrSliceExecFns;

verus! {

/// The character that separates one grid row from the next.
pub open spec fn break_char() -> char {
    '\n'
}

/// Number of cells before the first row break of `s` (the whole length when
/// `s` holds no break).
pub open spec fn first_break(s: Seq<char>) -> int
    decreases s.len(),
{
    if s.len() == 0 {
        0
    } else if s[0] == break_char() {
        0
    } else {
        1 + first_break(s.drop_first())
    }
}

pub proof fn lemma_first_break(s: Seq<char>)
    ensures
        0 <= first_break(s) <= s.len(),
        forall|i: int| 0 <= i < first_break(s) ==> s[i] != break_char(),
        first_break(s) < s.len() ==> s[first_break(s)] == break_char(),
    decreases s.len(),
{
    if s.len() == 0 {
    } else if s[0] == break_char() {
    } else {
        lemma_first_break(s.drop_first());
        assert forall|i: int| 0 <= i < first_break(s) implies s[i] != break_char() by {
            if i > 0 {
                assert(s.drop_first()[i - 1] == s[i]);
            }
        }
        if first_break(s) < s.len() {
            assert(s.drop_first()[first_break(s) - 1] == s[first_break(s)]);
        }
    }
}

/// The rows of `s`, split on the row break character. Empty text still has
/// one (empty) row, exactly as splitting does.
pub open spec fn lines_of(s: Seq<char>) -> Seq<Seq<char>>
    decreases s.len(),
{
    let k = first_break(s);
    if k < 0 || k >= s.len() {
        seq![s]
    } else {
        seq![s.take(k)] + lines_of(s.skip(k + 1))
    }
}

/// `s` is the text of a grid of exactly `h` rows of exactly `w` cells each.
/// Empty text is the degenerate empty grid: no rows, no cells.
pub open spec fn grid_dims_ok(s: Seq<char>, w: int, h: int) -> bool {
    if s.len() == 0 {
        w == 0 && h == 0
    } else {
        &&& lines_of(s).len() == h
        &&& forall|i: int| 0 <= i < lines_of(s).len() ==> (#[trigger] lines_of(s)[i]).len() == w
    }
}

/// Arithmetic form of the same shape statement: `s` is `h` rows of width `w`
/// joined by single breaks, so the breaks stand exactly at the indices
/// congruent to `w` modulo `w + 1`.
pub open spec fn rect_shape(s: Seq<char>, w: int, h: int) -> bool {
    &&& w >= 0
    &&& h >= 1
    &&& s.len() == h * (w + 1) - 1
    &&& forall|i: int| 0 <= i < s.len() ==> (((#[trigger] s[i]) == break_char()) <==> i % (w + 1) == w)
}

proof fn lemma_mod_shift_down(i: int, m: int)
    requires
        m > 0,
        i >= 0,
    ensures
        (i + m) % m == i % m,
{
    assert((i + m) % m == i % m) by (nonlinear_arith)
        requires
            m > 0,
            i >= 0,
    ;
}

proof fn lemma_small_mod_here(i: int, m: int)
    requires
        0 <= i < m,
    ensures
        i % m == i,
{
    assert(i % m == i) by (nonlinear_arith)
        requires
            0 <= i < m,
    ;
}

/// Row-splitting agrees with the arithmetic shape statement, one direction.
pub proof fn lemma_rect_to_lines(s: Seq<char>, w: int, h: int)
    requires
        rect_shape(s, w, h),
    ensures
        lines_of(s).len() == h,
        forall|i: int| 0 <= i < h ==> (#[trigger] lines_of(s)[i]).len() == w,
    decreases h,
{
    lemma_first_break(s);
    assert(s.len() == h * (w + 1) - 1);
    assert(h * (w + 1) >= w + 1) by (nonlinear_arith)
        requires
            h >= 1,
            w >= 0,
    ;
    assert forall|i: int| 0 <= i < w && i < s.len() implies s[i] != break_char() by {
        lemma_small_mod_here(i, w + 1);
    }
    if h == 1 {
        assert(h * (w + 1) == w + 1) by (nonlinear_arith)
            requires
                h == 1,
        ;
        assert(s.len() == w);
        // no cell of the single row is a break, so the first break is the length
        if first_break(s) < s.len() {
            assert(s[first_break(s)] == break_char());
            assert(false);
        }
        assert(lines_of(s) =~= seq![s]);
    } else {
        assert(s.len() >= 2 * (w + 1) - 1 > w) by (nonlinear_arith)
            requires
                h >= 2,
                w >= 0,
                s.len() == h * (w + 1) - 1,
        ;
        lemma_small_mod_here(w, w + 1);
        assert(s[w] == break_char());
        // so the first break is exactly at w
        assert(first_break(s) <= w);
        assert(first_break(s) == w);
        let rest = s.skip(w + 1);
        assert(rest.len() == (h - 1) * (w + 1) - 1) by (nonlinear_arith)
            requires
                s.len() == h * (w + 1) - 1,
                rest.len() == s.len() - (w + 1),
        ;
        assert forall|i: int| 0 <= i < rest.len() implies (((#[trigger] rest[i]) == break_char())
            <==> i % (w + 1) == w) by {
            assert(rest[i] == s[i + w + 1]);
            lemma_mod_shift_down(i, w + 1);
        }
        assert(rect_shape(rest, w, h - 1));
        lemma_rect_to_lines(rest, w, h - 1);
        assert(lines_of(s) =~= seq![s.take(w)] + lines_of(rest));
        assert(lines_of(s).len() == h);
        assert forall|i: int| 0 <= i < h implies (#[trigger] lines_of(s)[i]).len() == w by {
            if i == 0 {
                assert(lines_of(s)[0] == s.take(w));
            } else {
                assert(lines_of(s)[i] == lines_of(rest)[i - 1]);
            }
        }
    }
}

/// Row-splitting agrees with the arithmetic shape statement, the converse.
pub proof fn lemma_lines_to_rect(s: Seq<char>, w: int, h: int)
    requires
        lines_of(s).len() == h,
        forall|i: int| 0 <= i < h ==> (#[trigger] lines_of(s)[i]).len() == w,
    ensures
        rect_shape(s, w, h),
    decreases s.len(),
{
    lemma_first_break(s);
    let k = first_break(s);
    if k >= s.len() {
        assert(lines_of(s) =~= seq![s]);
        assert(h == 1);
        assert(lines_of(s)[0] == s);
        assert(s.len() == w);
        assert forall|i: int| 0 <= i < s.len() implies (((#[trigger] s[i]) == break_char())
            <==> i % (w + 1) == w) by {
            lemma_small_mod_here(i, w + 1);
        }
    } else {
        let rest = s.skip(k + 1);
        assert(lines_of(s) =~= seq![s.take(k)] + lines_of(rest));
        assert(h == 1 + lines_of(rest).len());
        assert(lines_of(s)[0] == s.take(k));
        assert(k == w);
        assert forall|i: int| 0 <= i < h - 1 implies (#[trigger] lines_of(rest)[i]).len() == w by {
            assert(lines_of(s)[i + 1] == lines_of(rest)[i]);
        }
        lemma_lines_to_rect(rest, w, h - 1);
        assert(s.len() == rest.len() + w + 1);
        assert(s.len() == h * (w + 1) - 1) by (nonlinear_arith)
            requires
                rest.len() == (h - 1) * (w + 1) - 1,
                s.len() == rest.len() + w + 1,
        ;
        assert forall|i: int| 0 <= i < s.len() implies (((#[trigger] s[i]) == break_char())
            <==> i % (w + 1) == w) by {
            if i < w {
                lemma_small_mod_here(i, w + 1);
            } else if i == w {
                lemma_small_mod_here(w, w + 1);
            } else {
                assert(rest[i - w - 1] == s[i]);
                lemma_mod_shift_down(i - w - 1, w + 1);
            }
        }
    }
}

/// A grid's dimensions are determined by its text.
pub proof fn lemma_dims_unique(s: Seq<char>, w1: int, h1: int, w2: int, h2: int)
    requires
        grid_dims_ok(s, w1, h1),
        grid_dims_ok(s, w2, h2),
    ensures
        w1 == w2,
        h1 == h2,
{
    if s.len() > 0 {
        assert(lines_of(s).len() >= 1);
        assert(lines_of(s)[0].len() == w1);
        assert(lines_of(s)[0].len() == w2);
    }
}

/// The flattened form of a grid text: the cells alone, with the row breaks
/// removed, in row-major order.
pub open spec fn flat_of(s: Seq<char>) -> Seq<char> {
    s.filter(|c: char| c != '\n')
}

proof fn lemma_filter_push(s: Seq<char>, x: char, pred: spec_fn(char) -> bool)
    ensures
        s.push(x).filter(pred) == if pred(x) {
            s.filter(pred).push(x)
        } else {
            s.filter(pred)
        },
{
    reveal(Seq::filter);
    assert(s.push(x).drop_last() =~= s);
    assert(s.push(x).last() == x);
}

proof fn lemma_filter_id_when_no_break(s: Seq<char>)
    requires
        forall|i: int| 0 <= i < s.len() ==> s[i] != break_char(),
    ensures
        flat_of(s) == s,
    decreases s.len(),
{
    reveal(Seq::filter);
    if s.len() == 0 {
        assert(flat_of(s) =~= s);
    } else {
        lemma_filter_id_when_no_break(s.drop_last());
        assert(flat_of(s) =~= s);
    }
}

/// Flattening distributes over concatenation.
pub proof fn lemma_flat_of_add(a: Seq<char>, b: Seq<char>)
    ensures
        flat_of(a + b) == flat_of(a) + flat_of(b),
{
    Seq::filter_distributes_over_add(a, b, |c: char| c != '\n');
}

/// Flattening a single character keeps it exactly when it is no break.
pub proof fn lemma_flat_of_one(c: char)
    ensures
        flat_of(seq![c]) == if c == break_char() {
            Seq::<char>::empty()
        } else {
            seq![c]
        },
{
    reveal(Seq::filter);
    assert(seq![c].drop_last() =~= Seq::<char>::empty());
    assert(Seq::<char>::empty().filter(|x: char| x != '\n') =~= Seq::<char>::empty());
    if c == break_char() {
        assert(flat_of(seq![c]) =~= Seq::<char>::empty());
    } else {
        assert(flat_of(seq![c]) =~= Seq::<char>::empty().push(c));
        assert(Seq::<char>::empty().push(c) =~= seq![c]);
    }
}

/// A rectangular grid flattens to exactly `w * h` cells.
pub proof fn lemma_flat_of_rect(s: Seq<char>, w: int, h: int)
    requires
        rect_shape(s, w, h),
    ensures
        flat_of(s).len() == w * h,
    decreases h,
{
    let pred = |c: char| c != '\n';
    lemma_first_break(s);
    assert forall|i: int| 0 <= i < w && i < s.len() implies s[i] != break_char() by {
        lemma_small_mod_here(i, w + 1);
    }
    assert(h * (w + 1) >= w + 1) by (nonlinear_arith)
        requires
            h >= 1,
            w >= 0,
    ;
    if h == 1 {
        assert(h * (w + 1) == w + 1) by (nonlinear_arith)
            requires
                h == 1,
        ;
        assert(s.len() == w);
        lemma_filter_id_when_no_break(s);
        assert(flat_of(s).len() == w * 1) by (nonlinear_arith)
            requires
                flat_of(s).len() == w,
    ;
    } else {
        assert(s.len() >= 2 * (w + 1) - 1 > w) by (nonlinear_arith)
            requires
                h >= 2,
                w >= 0,
                s.len() == h * (w + 1) - 1,
        ;
        lemma_small_mod_here(w, w + 1);
        let head = s.take(w + 1);
        let rest = s.skip(w + 1);
        assert(s =~= head + rest);
        Seq::filter_distributes_over_add(head, rest, pred);
        assert(head =~= s.take(w).push(s[w]));
        lemma_filter_push(s.take(w), s[w], pred);
        lemma_filter_id_when_no_break(s.take(w));
        assert(head.filter(pred).len() == w);
        assert(rest.len() == (h - 1) * (w + 1) - 1) by (nonlinear_arith)
            requires
                s.len() == h * (w + 1) - 1,
                rest.len() == s.len() - (w + 1),
        ;
        assert forall|i: int| 0 <= i < rest.len() implies (((#[trigger] rest[i]) == break_char())
            <==> i % (w + 1) == w) by {
            assert(rest[i] == s[i + w + 1]);
            lemma_mod_shift_down(i, w + 1);
        }
        lemma_flat_of_rect(rest, w, h - 1);
        assert(flat_of(s).len() == w + w * (h - 1));
        assert(w + w * (h - 1) == w * h) by (nonlinear_arith);
    }
}

pub(crate) proof fn lemma_mod_block(q: int, r: int, m: int)
    requires
        m > 0,
        0 <= r < m,
    ensures
        (q * m + r) % m == r,
{
    lemma_fundamental_div_mod_converse(q * m + r, m, q, r);
}

/// `first_break` is pinned by its characteristic properties.
pub proof fn lemma_first_break_is(s: Seq<char>, k: int)
    requires
        0 <= k <= s.len(),
        forall|i: int| 0 <= i < k ==> s[i] != break_char(),
        k < s.len() ==> s[k] == break_char(),
    ensures
        first_break(s) == k,
{
    lemma_first_break(s);
    let fb = first_break(s);
    if fb < k {
        assert(s[fb] == break_char());
        assert(s[fb] != break_char());
    } else if fb > k {
        assert(s[k] == break_char());
        assert(s[k] != break_char());
    }
}

/// In a rectangular grid the first break stands exactly after the first row.
pub proof fn lemma_rect_first_break(s: Seq<char>, w: int, h: int)
    requires
        rect_shape(s, w, h),
    ensures
        first_break(s) == w,
{
    assert(h * (w + 1) >= w + 1) by (nonlinear_arith)
        requires
            h >= 1,
            w >= 0,
    ;
    assert forall|i: int| 0 <= i < w implies s[i] != break_char() by {
        lemma_small_mod_here(i, w + 1);
    }
    if w < s.len() {
        lemma_small_mod_here(w, w + 1);
        assert(s[w] == break_char());
    }
    lemma_first_break_is(s, w);
}

/// Non-empty text whose dimensions work out is rectangular in the
/// arithmetic sense.
pub proof fn lemma_grid_dims_to_rect(s: Seq<char>, w: int, h: int)
    requires
        s.len() > 0,
        grid_dims_ok(s, w, h),
    ensures
        rect_shape(s, w, h),
{
    lemma_lines_to_rect(s, w, h);
}

/// Text whose break pattern goes wrong at one index is no grid at all.
pub proof fn lemma_break_pattern_violation(s: Seq<char>, w: int, j: int)
    requires
        first_break(s) == w,
        0 <= j < s.len(),
        (s[j] == break_char()) <==> !(j % (w + 1) == w),
    ensures
        forall|w2: int, h2: int| !grid_dims_ok(s, w2, h2),
{
    assert forall|w2: int, h2: int| !grid_dims_ok(s, w2, h2) by {
        if grid_dims_ok(s, w2, h2) {
            lemma_grid_dims_to_rect(s, w2, h2);
            lemma_rect_first_break(s, w2, h2);
        }
    }
}

/// Text of the wrong length for its first-row width is no grid at all.
pub proof fn lemma_break_length_violation(s: Seq<char>, w: int)
    requires
        first_break(s) == w,
        s.len() > 0,
        (s.len() as int) % (w + 1) != w,
    ensures
        forall|w2: int, h2: int| !grid_dims_ok(s, w2, h2),
{
    assert forall|w2: int, h2: int| !grid_dims_ok(s, w2, h2) by {
        if grid_dims_ok(s, w2, h2) {
            lemma_grid_dims_to_rect(s, w2, h2);
            lemma_rect_first_break(s, w2, h2);
            assert(w2 == w);
            assert(s.len() == (h2 - 1) * (w + 1) + w) by (nonlinear_arith)
                requires
                    s.len() == h2 * (w + 1) - 1,
            ;
            lemma_mod_block(h2 - 1, w, w + 1);
        }
    }
}

/// `n` cells all holding the character `c`.
pub open spec fn repeat_char(c: char, n: int) -> Seq<char> {
    if n <= 0 {
        Seq::empty()
    } else {
        Seq::new(n as nat, |i: int| c)
    }
}

/// The text of a `w` by `h` grid whose every cell holds `c`.
pub open spec fn single_char_grid(c: char, w: int, h: int) -> Seq<char>
    decreases h,
{
    if h <= 0 {
        Seq::empty()
    } else if h == 1 {
        repeat_char(c, w)
    } else {
        single_char_grid(c, w, h - 1).push(break_char()) + repeat_char(c, w)
    }
}

/// A single-character grid is rectangular and holds its character in every
/// cell.
pub proof fn lemma_single_char_grid(c: char, w: int, h: int)
    requires
        w >= 0,
        h >= 1,
        c != break_char(),
    ensures
        rect_shape(single_char_grid(c, w, h), w, h),
        forall|i: int|
            0 <= i < single_char_grid(c, w, h).len() && !(i % (w + 1) == w)
                ==> single_char_grid(c, w, h)[i] == c,
    decreases h,
{
    let s = single_char_grid(c, w, h);
    if h == 1 {
        assert(h * (w + 1) == w + 1) by (nonlinear_arith)
            requires
                h == 1,
        ;
        assert forall|i: int| 0 <= i < s.len() implies (((#[trigger] s[i]) == break_char())
            <==> i % (w + 1) == w) by {
            lemma_small_mod_here(i, w + 1);
        }
    } else {
        let prev = single_char_grid(c, w, h - 1);
        lemma_single_char_grid(c, w, h - 1);
        assert(s.len() == prev.len() + 1 + repeat_char(c, w).len());
        assert(s.len() == h * (w + 1) - 1) by (nonlinear_arith)
            requires
                prev.len() == (h - 1) * (w + 1) - 1,
                s.len() == prev.len() + 1 + w,
        ;
        assert forall|i: int| 0 <= i < s.len() implies (((#[trigger] s[i]) == break_char())
            <==> i % (w + 1) == w) by {
            if i < prev.len() {
                assert(s[i] == prev[i]);
            } else if i == prev.len() {
                assert(s[i] == break_char());
                assert((h - 2) * (w + 1) + w == (h - 1) * (w + 1) - 1) by (nonlinear_arith);
                lemma_mod_block(h - 2, w, w + 1);
            } else {
                let j = i - prev.len() - 1;
                assert(s[i] == repeat_char(c, w)[j]);
                assert(s[i] == c);
                assert((h - 1) * (w + 1) + j == i) by (nonlinear_arith)
                    requires
                        prev.len() == (h - 1) * (w + 1) - 1,
                        j == i - prev.len() - 1,
                ;
                lemma_mod_block(h - 1, j, w + 1);
            }
        }
        assert forall|i: int| 0 <= i < s.len() && !(i % (w + 1) == w) implies s[i] == c by {
            if i < prev.len() {
                assert(s[i] == prev[i]);
            } else if i == prev.len() {
                assert((h - 2) * (w + 1) + w == (h - 1) * (w + 1) - 1) by (nonlinear_arith);
                lemma_mod_block(h - 2, w, w + 1);
            } else {
                assert(s[i] == repeat_char(c, w)[i - prev.len() - 1]);
            }
        }
    }
}

/// `s` cut into rows of `w` cells, joined by breaks: the grid text built
/// from a flat list of cells.
pub open spec fn rows_grid(s: Seq<char>, w: int) -> Seq<char>
    decreases s.len(),
{
    if w <= 0 {
        s
    } else if s.len() <= w {
        s
    } else {
        s.take(w).push(break_char()) + rows_grid(s.skip(w), w)
    }
}

/// The text joined back from a list of rows, with one break between
/// neighbouring rows.
pub open spec fn join_lines(ls: Seq<Seq<char>>) -> Seq<char>
    decreases ls.len(),
{
    if ls.len() == 0 {
        Seq::empty()
    } else if ls.len() == 1 {
        ls[0]
    } else {
        ls[0].push(break_char()) + join_lines(ls.drop_first())
    }
}

pub proof fn lemma_join_lines_push(ls: Seq<Seq<char>>, l: Seq<char>)
    ensures
        join_lines(ls.push(l)) == if ls.len() == 0 {
            l
        } else {
            join_lines(ls).push(break_char()) + l
        },
    decreases ls.len(),
{
    if ls.len() == 0 {
        assert(ls.push(l) =~= seq![l]);
        assert(join_lines(ls.push(l)) == l);
    } else if ls.len() == 1 {
        assert(ls.push(l)[0] == ls[0]);
        assert(ls.push(l).drop_first() =~= seq![l]);
        assert(join_lines(seq![l]) == seq![l][0]);
        assert(join_lines(ls.push(l)) == ls[0].push(break_char()) + l);
    } else {
        assert(ls.push(l).drop_first() =~= ls.drop_first().push(l));
        lemma_join_lines_push(ls.drop_first(), l);
        assert(join_lines(ls.push(l)) == ls[0].push(break_char()) + (join_lines(
            ls.drop_first(),
        ).push(break_char()) + l));
        assert(ls[0].push(break_char()) + (join_lines(ls.drop_first()).push(break_char()) + l)
            =~= (ls[0].push(break_char()) + join_lines(ls.drop_first())).push(break_char()) + l);
    }
}

/// Splitting undoes joining, as long as no row holds a break itself.
pub proof fn lemma_lines_of_join(ls: Seq<Seq<char>>)
    requires
        ls.len() >= 1,
        forall|i: int, j: int|
            0 <= i < ls.len() && 0 <= j < ls[i].len() ==> #[trigger] ls[i][j] != break_char(),
    ensures
        lines_of(join_lines(ls)) == ls,
    decreases ls.len(),
{
    let s = join_lines(ls);
    if ls.len() == 1 {
        assert(forall|j: int| 0 <= j < s.len() ==> s[j] != break_char());
        lemma_first_break_is(s, s.len() as int);
        assert(lines_of(s) =~= seq![s]);
        assert(lines_of(s) =~= ls);
    } else {
        let l0 = ls[0];
        let rest = join_lines(ls.drop_first());
        assert(s == l0.push(break_char()) + rest);
        assert forall|j: int| 0 <= j < l0.len() implies s[j] != break_char() by {
            assert(s[j] == l0[j]);
        }
        assert(s[l0.len() as int] == break_char());
        lemma_first_break_is(s, l0.len() as int);
        assert(s.take(l0.len() as int) =~= l0);
        assert(s.skip(l0.len() as int + 1) =~= rest);
        assert forall|i: int, j: int|
            0 <= i < ls.drop_first().len() && 0 <= j < ls.drop_first()[i].len()
            implies #[trigger] ls.drop_first()[i][j] != break_char() by {
            assert(ls.drop_first()[i] == ls[i + 1]);
        }
        lemma_lines_of_join(ls.drop_first());
        assert(lines_of(s) =~= seq![l0] + lines_of(rest));
        assert(lines_of(s) =~= ls);
    }
}

/// The longest row length among `ls`.
pub open spec fn max_line_len(ls: Seq<Seq<char>>) -> int
    decreases ls.len(),
{
    if ls.len() == 0 {
        0
    } else {
        let rest = max_line_len(ls.drop_last());
        if ls.last().len() >= rest {
            ls.last().len() as int
        } else {
            rest
        }
    }
}

pub proof fn lemma_max_line_len_bound(ls: Seq<Seq<char>>)
    ensures
        max_line_len(ls) >= 0,
        forall|i: int| 0 <= i < ls.len() ==> (#[trigger] ls[i]).len() <= max_line_len(ls),
    decreases ls.len(),
{
    if ls.len() > 0 {
        lemma_max_line_len_bound(ls.drop_last());
        assert forall|i: int| 0 <= i < ls.len() implies (#[trigger] ls[i]).len() <= max_line_len(
            ls,
        ) by {
            if i < ls.len() - 1 {
                assert(ls.drop_last()[i] == ls[i]);
            }
        }
    }
}

/// The views of a list of rows held as vectors.
pub open spec fn rows_view(rs: Seq<Vec<char>>) -> Seq<Seq<char>> {
    rs.map_values(|r: Vec<char>| r@)
}

/// `l` padded with spaces on the right out to `m` cells.
pub open spec fn pad_line(l: Seq<char>, m: int) -> Seq<char> {
    l + repeat_char(' ', m - l.len())
}

/// Every row of `s` padded with spaces to the length of the longest one.
pub open spec fn padded_lines(s: Seq<char>) -> Seq<Seq<char>> {
    lines_of(s).map_values(|l: Seq<char>| pad_line(l, max_line_len(lines_of(s))))
}

/// Splits `v` into its rows, exactly as `lines_of` does on its view.
pub fn split_rows(v: &Vec<char>) -> (rs: Vec<Vec<char>>)
    ensures
        rows_view(rs@) == lines_of(v@),
        rs@.len() >= 1,
        forall|a: int, b: int|
            0 <= a < rs@.len() && 0 <= b < rs@[a]@.len() ==> #[trigger] rs@[a]@[b] != break_char(),
{
    let mut rs: Vec<Vec<char>> = Vec::new();
    let mut cur: Vec<char> = Vec::new();
    let mut i: usize = 0;
    while i < v.len()
        invariant
            i <= v@.len(),
            forall|a: int, b: int|
                0 <= a < rs@.len() && 0 <= b < rs@[a]@.len() ==> #[trigger] rs@[a]@[b]
                    != break_char(),
            forall|b: int| 0 <= b < cur@.len() ==> cur@[b] != break_char(),
            if rs@.len() == 0 {
                cur@ == v@.take(i as int)
            } else {
                join_lines(rows_view(rs@)).push(break_char()) + cur@ == v@.take(i as int)
            },
        decreases v@.len() - i,
    {
        let c = v[i];
        proof {
            assert(v@.take(i + 1) =~= v@.take(i as int).push(v@[i as int]));
        }
        if c == '\n' {
            proof {
                lemma_join_lines_push(rows_view(rs@), cur@);
                assert(rows_view(rs@.push(cur)) =~= rows_view(rs@).push(cur@));
            }
            let ghost old_rows = rs@;
            let ghost old_cur = cur@;
            rs.push(cur);
            cur = Vec::new();
            proof {
                if old_rows.len() == 0 {
                    assert(join_lines(rows_view(rs@)) == old_cur);
                    assert(join_lines(rows_view(rs@)).push(break_char()) + cur@ =~= v@.take(
                        i + 1,
                    ));
                } else {
                    assert(join_lines(rows_view(rs@)) == join_lines(rows_view(old_rows)).push(
                        break_char(),
                    ) + old_cur);
                    assert(join_lines(rows_view(rs@)).push(break_char()) + cur@ =~= v@.take(
                        i + 1,
                    ));
                }
            }
        } else {
            cur.push(c);
            proof {
                if rs@.len() == 0 {
                } else {
                    assert(join_lines(rows_view(rs@)).push(break_char()) + cur@ =~= v@.take(
                        i + 1,
                    ));
                }
            }
        }
        i = i + 1;
    }
    proof {
        assert(v@.take(v@.len() as int) =~= v@);
        lemma_join_lines_push(rows_view(rs@), cur@);
        assert(rows_view(rs@.push(cur)) =~= rows_view(rs@).push(cur@));
    }
    let ghost old_rows = rs@;
    let ghost old_cur = cur@;
    rs.push(cur);
    proof {
        if old_rows.len() == 0 {
            assert(join_lines(rows_view(rs@)) == old_cur);
        } else {
            assert(join_lines(rows_view(rs@)) =~= v@);
        }
        assert(join_lines(rows_view(rs@)) == v@);
        lemma_lines_of_join(rows_view(rs@));
    }
    rs
}

/// The characters of `s`, one cell per element.
pub fn chars_of(s: &str) -> (v: Vec<char>)
    ensures
        v@ == s@,
{
    let n = s.unicode_len();
    let mut v: Vec<char> = Vec::new();
    let mut i: usize = 0;
    while i < n
        invariant
            n == s@.len(),
            i <= n,
            v@ == s@.take(i as int),
        decreases n - i,
    {
        v.push(s.get_char(i));
        assert(v@ =~= s@.take(i + 1));
        i = i + 1;
    }
    assert(s@.take(n as int) =~= s@);
    v
}

/// Relies on `String: FromIterator<char>`: collecting characters yields the
/// string of exactly those characters, in order.
#[verifier::external_body]
pub(crate) fn chars_to_string(v: &Vec<char>) -> (r: String)
    ensures
        r@ == v@,
{
    v.iter().collect()
}

/// The flattened form of `v`: every cell, with the row breaks removed.
pub fn remove_breaks(v: &Vec<char>) -> (r: Vec<char>)
    ensures
        r@ == flat_of(v@),
{
    let pred = |c: char| c != '\n';
    let mut r: Vec<char> = Vec::new();
    let mut i: usize = 0;
    while i < v.len()
        invariant
            i <= v@.len(),
            r@ == flat_of(v@.take(i as int)),
        decreases v@.len() - i,
    {
        let c = v[i];
        if c != '\n' {
            r.push(c);
        }
        proof {
            assert(v@.take(i + 1) =~= v@.take(i as int).push(v@[i as int]));
            lemma_filter_push(v@.take(i as int), v@[i as int], |c: char| c != '\n');
        }
        i = i + 1;
    }
    assert(v@.take(v@.len() as int) =~= v@);
    r
}

} // verus!

//! A model of the terminal screen: cells keyed by column and row, a
//! cursor, and the effect of the streams the difference engine emits.

use crate::diff::{
    apply_run, apply_runs, lemma_serialize_mid_break, lemma_serialize_mid_cell, pixel_differences,
    run_payload_span, run_wf, serialize_mid, serialize_run, serialize_runs, RunSpec,
};
use crate::escape::{
    dec_rep, digits_prefix_len, digits_value, esc_move_to, lemma_dec_rep_digits,
    lemma_parse_dec_rep,
};
use crate::grid::{break_char, flat_of, grid_dims_ok, rect_shape};
use vstd::prelude::*;

verus! {

broadcast use vstd::map::group_map_axioms, vstd::set::group_set_axioms;

/// The screen after the stream has been applied to it, with the cursor
/// starting at column `cx` of row `cy`: a cursor-position sequence moves
/// the cursor, any other character lands at the cursor, which then steps
/// one column right. A sequence not of the emitted shape ends the stream.
pub open spec fn apply_stream(
    screen: Map<(int, int), char>,
    stream: Seq<char>,
    cx: int,
    cy: int,
) -> Map<(int, int), char>
    decreases stream.len(),
{
    if stream.len() == 0 {
        screen
    } else if stream[0] == '\x1B' {
        if stream.len() < 2 {
            screen
        } else {
            let body = stream.skip(2);
            let k1 = digits_prefix_len(body);
            if k1 < 0 || k1 + 1 > body.len() {
                screen
            } else {
                let row = digits_value(body, k1);
                let rest1 = body.skip(k1 + 1);
                let k2 = digits_prefix_len(rest1);
                if k2 < 0 || k2 + 1 > rest1.len() {
                    screen
                } else {
                    let col = digits_value(rest1, k2);
                    apply_stream(screen, rest1.skip(k2 + 1), col, row)
                }
            }
        }
    } else {
        apply_stream(screen.insert((cx, cy), stream[0]), stream.drop_first(), cx + 1, cy)
    }
}

/// A cursor-position sequence at the head of the stream only moves the
/// cursor there.
pub proof fn lemma_apply_move_to(
    screen: Map<(int, int), char>,
    x: int,
    y: int,
    rest: Seq<char>,
    cx: int,
    cy: int,
)
    requires
        x >= 0,
        y >= 0,
    ensures
        apply_stream(screen, esc_move_to(x, y) + rest, cx, cy) == apply_stream(screen, rest, x, y),
{
    let stream = esc_move_to(x, y) + rest;
    let tail_y = seq![';'] + dec_rep(x) + seq!['H'] + rest;
    let tail_x = seq!['H'] + rest;
    lemma_dec_rep_digits(x);
    lemma_dec_rep_digits(y);
    assert(stream[0] == '\x1B');
    assert(stream.len() >= 2);
    let body = stream.skip(2);
    assert(body =~= dec_rep(y) + tail_y);
    assert(tail_y[0] == ';');
    lemma_parse_dec_rep(y, tail_y);
    let k1 = digits_prefix_len(body);
    assert(k1 == dec_rep(y).len());
    assert(digits_value(body, k1) == y);
    assert(k1 + 1 <= body.len());
    let rest1 = body.skip(k1 + 1);
    assert(rest1 =~= dec_rep(x) + tail_x);
    assert(tail_x[0] == 'H');
    lemma_parse_dec_rep(x, tail_x);
    let k2 = digits_prefix_len(rest1);
    assert(k2 == dec_rep(x).len());
    assert(digits_value(rest1, k2) == x);
    assert(k2 + 1 <= rest1.len());
    assert(rest1.skip(k2 + 1) =~= rest);
}

/// Any character but the escape lands at the cursor and steps it right.
pub proof fn lemma_apply_cell(
    screen: Map<(int, int), char>,
    c: char,
    rest: Seq<char>,
    cx: int,
    cy: int,
)
    requires
        c != '\x1B',
    ensures
        apply_stream(screen, seq![c] + rest, cx, cy) == apply_stream(
            screen.insert((cx, cy), c),
            rest,
            cx + 1,
            cy,
        ),
{
    assert((seq![c] + rest)[0] == c);
    assert((seq![c] + rest).drop_first() =~= rest);
}

/// The screen with the cells `i` up to `end` of the flattened grid `new`
/// written at their places on a grid drawn at origin `(ox, oy)`.
pub open spec fn write_span(
    screen: Map<(int, int), char>,
    new: Seq<char>,
    w: int,
    i: int,
    end: int,
    ox: int,
    oy: int,
) -> Map<(int, int), char>
    decreases end - i,
{
    if i >= end {
        screen
    } else {
        write_span(
            screen.insert((ox + i % w, oy + i / w), new[i]),
            new,
            w,
            i + 1,
            end,
            ox,
            oy,
        )
    }
}

proof fn lemma_step_coords(i: int, w: int)
    requires
        i >= 0,
        w >= 1,
    ensures
        (i + 1) % w != 0 ==> (i + 1) % w == i % w + 1 && (i + 1) / w == i / w,
        (i + 1) % w == 0 ==> i % w == w - 1 && (i + 1) / w == i / w + 1,
        0 <= i % w < w,
        i / w >= 0,
{
    vstd::arithmetic::div_mod::lemma_fundamental_div_mod(i, w);
    vstd::arithmetic::div_mod::lemma_mod_bound(i, w);
    vstd::arithmetic::div_mod::lemma_div_pos_is_pos(i, w);
    if i % w + 1 < w {
        assert(i + 1 == (i / w) * w + (i % w + 1)) by (nonlinear_arith)
            requires
                i == w * (i / w) + i % w,
        ;
        vstd::arithmetic::div_mod::lemma_fundamental_div_mod_converse(
            i + 1,
            w,
            i / w,
            i % w + 1,
        );
    } else {
        assert(i + 1 == (i / w + 1) * w + 0) by (nonlinear_arith)
            requires
                i == w * (i / w) + i % w,
                i % w == w - 1,
        ;
        vstd::arithmetic::div_mod::lemma_fundamental_div_mod_converse(i + 1, w, i / w + 1, 0);
    }
}

/// Applying the stream of a run's remaining cells writes exactly those
/// cells at their grid places and leaves the cursor after the last one.
proof fn lemma_apply_mid_span(
    screen: Map<(int, int), char>,
    new: Seq<char>,
    w: int,
    start: int,
    i: int,
    end: int,
    ox: int,
    oy: int,
    y: int,
    rest: Seq<char>,
    cx: int,
    cy: int,
)
    requires
        w >= 1,
        ox >= 0,
        oy >= 0,
        0 <= start <= i < end <= new.len(),
        forall|j: int| i <= j < end && j > start && #[trigger] (j % w) == 0 ==> j != new.len() - 1,
        forall|j: int| i <= j < end ==> new[j] != break_char() && new[j] != '\x1B',
        i == start || i % w != 0 ==> cx == ox + i % w && cy == oy + i / w && y == oy + i / w,
        i > start && i % w == 0 ==> y == oy + i / w - 1,
    ensures
        apply_stream(
            screen,
            serialize_mid(run_payload_span(new, w, start, i, end), y, ox) + rest,
            cx,
            cy,
        ) == apply_stream(
            write_span(screen, new, w, i, end, ox, oy),
            rest,
            ox + (end - 1) % w + 1,
            oy + (end - 1) / w,
        ),
    decreases end - i,
{
    let p = run_payload_span(new, w, start, i, end);
    let tail = run_payload_span(new, w, start, i + 1, end);
    lemma_step_coords(i, w);
    if i > start && i % w == 0 {
        // the payload crosses into a new row here: a break marker, then
        // a fresh cursor move in the stream
        assert(i != new.len() - 1);
        assert(p == seq![break_char(), new[i]] + tail);
        assert(p[0] == break_char());
        lemma_serialize_mid_break(p, y, ox);
        assert(p.drop_first() =~= seq![new[i]] + tail);
        assert(serialize_mid(p, y, ox) + rest =~= esc_move_to(ox, y + 1) + (serialize_mid(
            p.drop_first(),
            y + 1,
            ox,
        ) + rest));
        lemma_apply_move_to(screen, ox, y + 1, serialize_mid(p.drop_first(), y + 1, ox) + rest, cx, cy);
        assert(y + 1 == oy + i / w);
        lemma_serialize_mid_cell(p.drop_first(), y + 1, ox);
        assert(p.drop_first().drop_first() =~= tail);
        assert(serialize_mid(p.drop_first(), y + 1, ox) + rest =~= seq![new[i]] + (serialize_mid(
            tail,
            y + 1,
            ox,
        ) + rest));
        lemma_apply_cell(
            screen,
            new[i],
            serialize_mid(tail, y + 1, ox) + rest,
            ox,
            y + 1,
        );
        assert(i % w == 0);
        let screen2 = screen.insert((ox + i % w, oy + i / w), new[i]);
        assert(screen.insert((ox, y + 1), new[i]) == screen2);
        if i + 1 == end {
            assert(tail =~= Seq::<char>::empty());
            assert(serialize_mid(Seq::<char>::empty(), y + 1, ox) =~= Seq::<char>::empty());
            assert(Seq::<char>::empty() + rest =~= rest);
            assert(write_span(screen2, new, w, i + 1, end, ox, oy) == screen2);
            assert(write_span(screen, new, w, i, end, ox, oy) == screen2);
            assert(ox + 1 == ox + (end - 1) % w + 1);
            assert(oy + i / w == oy + (end - 1) / w);
        } else {
            lemma_step_coords(i + 1 - 1, w);
            lemma_apply_mid_span(
                screen2,
                new,
                w,
                start,
                i + 1,
                end,
                ox,
                oy,
                y + 1,
                rest,
                ox + 1,
                y + 1,
            );
            assert(write_span(screen, new, w, i, end, ox, oy) == write_span(
                screen2,
                new,
                w,
                i + 1,
                end,
                ox,
                oy,
            ));
        }
    } else {
        // a plain cell of the current row
        assert(p == seq![new[i]] + tail);
        assert(p[0] == new[i]);
        lemma_serialize_mid_cell(p, y, ox);
        assert(p.drop_first() =~= tail);
        assert(serialize_mid(p, y, ox) + rest =~= seq![new[i]] + (serialize_mid(tail, y, ox)
            + rest));
        lemma_apply_cell(screen, new[i], serialize_mid(tail, y, ox) + rest, cx, cy);
        let screen2 = screen.insert((ox + i % w, oy + i / w), new[i]);
        assert(screen.insert((cx, cy), new[i]) == screen2);
        if i + 1 == end {
            assert(tail =~= Seq::<char>::empty());
            assert(serialize_mid(Seq::<char>::empty(), y, ox) =~= Seq::<char>::empty());
            assert(Seq::<char>::empty() + rest =~= rest);
            assert(write_span(screen2, new, w, i + 1, end, ox, oy) == screen2);
            assert(write_span(screen, new, w, i, end, ox, oy) == screen2);
            assert(cx + 1 == ox + (end - 1) % w + 1);
            assert(cy == oy + (end - 1) / w);
        } else {
            lemma_apply_mid_span(
                screen2,
                new,
                w,
                start,
                i + 1,
                end,
                ox,
                oy,
                y,
                rest,
                cx + 1,
                cy,
            );
            assert(write_span(screen, new, w, i, end, ox, oy) == write_span(
                screen2,
                new,
                w,
                i + 1,
                end,
                ox,
                oy,
            ));
        }
    }
}

/// Applying the whole stream of one run writes exactly its cells at their
/// grid places, whatever the cursor held before, and leaves the cursor
/// after the run's last cell.
pub proof fn lemma_apply_run_stream(
    screen: Map<(int, int), char>,
    new: Seq<char>,
    w: int,
    idx: int,
    end: int,
    ox: int,
    oy: int,
    rest: Seq<char>,
    cx: int,
    cy: int,
)
    requires
        w >= 1,
        ox >= 0,
        oy >= 0,
        0 <= idx < end <= new.len(),
        forall|j: int| idx < j < end && #[trigger] (j % w) == 0 ==> j != new.len() - 1,
        forall|j: int| idx <= j < end ==> new[j] != break_char() && new[j] != '\x1B',
    ensures
        apply_stream(
            screen,
            serialize_run(idx, run_payload_span(new, w, idx, idx, end), ox, oy, w) + rest,
            cx,
            cy,
        ) == apply_stream(
            write_span(screen, new, w, idx, end, ox, oy),
            rest,
            ox + (end - 1) % w + 1,
            oy + (end - 1) / w,
        ),
{
    let p = run_payload_span(new, w, idx, idx, end);
    lemma_step_coords(idx, w);
    assert(serialize_run(idx, p, ox, oy, w) + rest =~= esc_move_to(ox + idx % w, oy + idx / w)
        + (serialize_mid(p, oy + idx / w, ox) + rest));
    lemma_apply_move_to(
        screen,
        ox + idx % w,
        oy + idx / w,
        serialize_mid(p, oy + idx / w, ox) + rest,
        cx,
        cy,
    );
    lemma_apply_mid_span(
        screen,
        new,
        w,
        idx,
        idx,
        end,
        ox,
        oy,
        oy + idx / w,
        rest,
        ox + idx % w,
        oy + idx / w,
    );
}


/// The screen shows the flattened grid `buf` at origin `(ox, oy)`.
pub open spec fn screen_matches(
    screen: Map<(int, int), char>,
    buf: Seq<char>,
    w: int,
    ox: int,
    oy: int,
) -> bool {
    forall|i: int|
        0 <= i < buf.len() ==> screen.dom().contains(((ox + #[trigger] (i % w)), (oy + i / w)))
            && screen[((ox + i % w), (oy + i / w))] == buf[i]
}

proof fn lemma_coord_injective(a: int, b: int, w: int)
    requires
        w >= 1,
        a >= 0,
        b >= 0,
        a % w == b % w,
        a / w == b / w,
    ensures
        a == b,
{
    vstd::arithmetic::div_mod::lemma_fundamental_div_mod(a, w);
    vstd::arithmetic::div_mod::lemma_fundamental_div_mod(b, w);
}

/// The cells of a span's payload, markers dropped, are exactly the new
/// characters over its range.
proof fn lemma_flat_of_span(new: Seq<char>, w: int, start: int, i: int, end: int)
    requires
        0 <= start <= i <= end <= new.len(),
        forall|j: int| i <= j < end ==> new[j] != break_char(),
    ensures
        flat_of(run_payload_span(new, w, start, i, end)) == new.subrange(i, end),
    decreases end - i,
{
    if i >= end {
        assert(run_payload_span(new, w, start, i, end) == Seq::<char>::empty());
        assert(flat_of(Seq::<char>::empty()) =~= Seq::<char>::empty()) by {
            reveal(Seq::filter);
        }
        assert(new.subrange(i, end) =~= Seq::<char>::empty());
    } else {
        let cellpart = if i > start && i % w == 0 && i != new.len() - 1 {
            seq![break_char(), new[i]]
        } else {
            seq![new[i]]
        };
        let tail = run_payload_span(new, w, start, i + 1, end);
        lemma_flat_of_span(new, w, start, i + 1, end);
        crate::grid::lemma_flat_of_add(cellpart, tail);
        crate::grid::lemma_flat_of_one(new[i]);
        if i > start && i % w == 0 && i != new.len() - 1 {
            assert(cellpart =~= seq![break_char()] + seq![new[i]]);
            crate::grid::lemma_flat_of_add(seq![break_char()], seq![new[i]]);
            crate::grid::lemma_flat_of_one(break_char());
            assert(flat_of(cellpart) =~= seq![new[i]]);
        }
        assert(flat_of(run_payload_span(new, w, start, i, end)) =~= seq![new[i]]
            + new.subrange(i + 1, end));
        assert(new.subrange(i, end) =~= seq![new[i]] + new.subrange(i + 1, end));
    }
}

/// Writing a span of cells on the screen shows the same cells that writing
/// them into the flattened buffer does.
proof fn lemma_write_span_matches(
    screen: Map<(int, int), char>,
    buf: Seq<char>,
    new: Seq<char>,
    w: int,
    i: int,
    end: int,
    ox: int,
    oy: int,
)
    requires
        w >= 1,
        buf.len() == new.len(),
        0 <= i <= end <= new.len(),
        screen_matches(screen, buf, w, ox, oy),
    ensures
        screen_matches(
            write_span(screen, new, w, i, end, ox, oy),
            apply_run(buf, i, new.subrange(i, end)),
            w,
            ox,
            oy,
        ),
    decreases end - i,
{
    if i >= end {
        assert(apply_run(buf, i, new.subrange(i, end)) =~= buf);
    } else {
        let screen2 = screen.insert(((ox + i % w), (oy + i / w)), new[i]);
        let buf2 = buf.update(i, new[i]);
        assert forall|a: int| 0 <= a < buf2.len() implies screen2.dom().contains(
            ((ox + #[trigger] (a % w)), (oy + a / w)),
        ) && screen2[((ox + a % w), (oy + a / w))] == buf2[a] by {
                if a == i {
                    assert(screen2.dom() == screen.dom().insert(((ox + i % w), (oy + i / w))));
                    assert(screen2.dom().contains(((ox + i % w), (oy + i / w))));
                } else {
                    if a % w == i % w && a / w == i / w {
                        lemma_coord_injective(a, i, w);
                    }
                    assert(buf2[a] == buf[a]);
                    assert(screen.dom().contains(((ox + a % w), (oy + a / w))));
                    assert(screen2.dom().contains(((ox + a % w), (oy + a / w))));
                }
            }
        assert(screen_matches(screen2, buf2, w, ox, oy));
        lemma_write_span_matches(screen2, buf2, new, w, i + 1, end, ox, oy);
        assert(apply_run(buf2, i + 1, new.subrange(i + 1, end)) =~= apply_run(
            buf,
            i,
            new.subrange(i, end),
        ));
        assert(write_span(screen, new, w, i, end, ox, oy) == write_span(
            screen2,
            new,
            w,
            i + 1,
            end,
            ox,
            oy,
        ));
    }
}

/// Runs write from the first to the last, so the whole list can be peeled
/// off the front.
proof fn lemma_apply_runs_front(buf: Seq<char>, rs: Seq<RunSpec>)
    requires
        rs.len() >= 1,
    ensures
        apply_runs(buf, rs) == apply_runs(
            apply_run(buf, rs[0].index, flat_of(rs[0].payload)),
            rs.drop_first(),
        ),
    decreases rs.len(),
{
    let stepped = apply_run(buf, rs[0].index, flat_of(rs[0].payload));
    if rs.len() == 1 {
        assert(rs.drop_last() =~= Seq::<RunSpec>::empty());
        assert(rs.drop_first() =~= Seq::<RunSpec>::empty());
        assert(rs.last() == rs[0]);
        assert(apply_runs(buf, Seq::<RunSpec>::empty()) == buf);
        assert(apply_runs(stepped, Seq::<RunSpec>::empty()) == stepped);
    } else {
        lemma_apply_runs_front(buf, rs.drop_last());
        assert(rs.drop_last()[0] == rs[0]);
        assert(rs.drop_last().drop_first() =~= rs.drop_first().drop_last());
        assert(rs.drop_first().last() == rs.last());
        assert(apply_runs(buf, rs) == apply_run(
            apply_runs(buf, rs.drop_last()),
            rs.last().index,
            flat_of(rs.last().payload),
        ));
        assert(apply_runs(buf, rs.drop_last()) == apply_runs(
            stepped,
            rs.drop_first().drop_last(),
        ));
        assert(apply_runs(stepped, rs.drop_first()) == apply_run(
            apply_runs(stepped, rs.drop_first().drop_last()),
            rs.drop_first().last().index,
            flat_of(rs.drop_first().last().payload),
        ));
    }
}

/// Applying the streams of a run list, first to last, shows the same grid
/// cells that applying the runs to the flattened buffer does.
proof fn lemma_apply_runs_stream(
    screen: Map<(int, int), char>,
    buf: Seq<char>,
    new: Seq<char>,
    w: int,
    rs: Seq<RunSpec>,
    ox: int,
    oy: int,
    cx: int,
    cy: int,
)
    requires
        w >= 1,
        ox >= 0,
        oy >= 0,
        buf.len() == new.len(),
        screen_matches(screen, buf, w, ox, oy),
        forall|k: int| 0 <= k < rs.len() ==> run_wf(new, w, #[trigger] rs[k]),
        forall|j: int| 0 <= j < new.len() && #[trigger] (j % w) == 0 ==> j != new.len() - 1,
        forall|j: int| 0 <= j < new.len() ==> new[j] != break_char() && new[j] != '\x1B',
    ensures
        screen_matches(
            apply_stream(screen, serialize_runs(rs, ox, oy, w), cx, cy),
            apply_runs(buf, rs),
            w,
            ox,
            oy,
        ),
    decreases rs.len(),
{
    if rs.len() == 0 {
        assert(serialize_runs(rs, ox, oy, w) == Seq::<char>::empty());
    } else {
        let r0 = rs[0];
        assert(run_wf(new, w, r0));
        let end0 = choose|end: int|
            0 <= r0.index < end <= new.len() && r0.payload == run_payload_span(
                new,
                w,
                r0.index,
                r0.index,
                end,
            );
        assert(serialize_runs(rs, ox, oy, w) == serialize_run(r0.index, r0.payload, ox, oy, w)
            + serialize_runs(rs.drop_first(), ox, oy, w));
        lemma_apply_run_stream(
            screen,
            new,
            w,
            r0.index,
            end0,
            ox,
            oy,
            serialize_runs(rs.drop_first(), ox, oy, w),
            cx,
            cy,
        );
        lemma_write_span_matches(screen, buf, new, w, r0.index, end0, ox, oy);
        lemma_flat_of_span(new, w, r0.index, r0.index, end0);
        let screen2 = write_span(screen, new, w, r0.index, end0, ox, oy);
        let buf2 = apply_run(buf, r0.index, flat_of(r0.payload));
        assert(buf2 == apply_run(buf, r0.index, new.subrange(r0.index, end0)));
        assert(buf2.len() == new.len());
        assert forall|k: int| 0 <= k < rs.drop_first().len() implies run_wf(
            new,
            w,
            #[trigger] rs.drop_first()[k],
        ) by {
            assert(rs.drop_first()[k] == rs[k + 1]);
        }
        lemma_apply_runs_stream(
            screen2,
            buf2,
            new,
            w,
            rs.drop_first(),
            ox,
            oy,
            ox + (end0 - 1) % w + 1,
            oy + (end0 - 1) / w,
        );
        lemma_apply_runs_front(buf, rs);
    }
}

/// Round trip at the stream level: applying the emitted escape stream to a
/// terminal screen that shows the old grid makes it show the new grid
/// exactly, for any pair of grids of one shape at least two cells wide.
/// (A width-one grid may suppress the final row break, which paints the
/// last cell beside its predecessor rather than below it.)
pub proof fn lemma_stream_round_trip(
    screen: Map<(int, int), char>,
    old_grid: Seq<char>,
    new_grid: Seq<char>,
    w: int,
    h: int,
    ox: int,
    oy: int,
    cx: int,
    cy: int,
)
    requires
        rect_shape(old_grid, w, h),
        rect_shape(new_grid, w, h),
        w >= 2,
        ox >= 0,
        oy >= 0,
        forall|i: int| 0 <= i < flat_of(new_grid).len() ==> flat_of(new_grid)[i] != '\x1B',
        screen_matches(screen, flat_of(old_grid), w, ox, oy),
    ensures
        screen_matches(
            apply_stream(
                screen,
                serialize_runs(
                    pixel_differences(flat_of(old_grid), flat_of(new_grid), w),
                    ox,
                    oy,
                    w,
                ),
                cx,
                cy,
            ),
            flat_of(new_grid),
            w,
            ox,
            oy,
        ),
{
    let olds = flat_of(old_grid);
    let news = flat_of(new_grid);
    crate::grid::lemma_flat_of_rect(old_grid, w, h);
    crate::grid::lemma_flat_of_rect(new_grid, w, h);
    crate::diff::lemma_flat_has_no_breaks(new_grid);
    crate::diff::lemma_diff_runs_all_wf(olds, news, w);
    assert forall|j: int| 0 <= j < news.len() && #[trigger] (j % w) == 0 implies j != news.len()
        - 1 by {
        if j == news.len() - 1 {
            assert(w * h - 1 == (h - 1) * w + (w - 1)) by (nonlinear_arith);
            crate::grid::lemma_mod_block(h - 1, w - 1, w);
        }
    }
    lemma_apply_runs_stream(
        screen,
        olds,
        news,
        w,
        pixel_differences(olds, news, w),
        ox,
        oy,
        cx,
        cy,
    );
    crate::diff::lemma_diff_round_trip(olds, news, w);
}


/// Round trip for a print call itself: when a session that shows one grid
/// prints another grid of the same shape on an unchanged terminal, the
/// returned escape stream turns a terminal screen showing the old grid
/// into one showing the new grid, for grids at least two cells wide.
pub proof fn lemma_print_output_round_trip(
    m0: crate::dynamic_printer::PrinterModel,
    m1: crate::dynamic_printer::PrinterModel,
    s: Seq<char>,
    td: (usize, usize),
    out: String,
    w: int,
    h: int,
    screen: Map<(int, int), char>,
    cx: int,
    cy: int,
)
    requires
        grid_dims_ok(s, w, h),
        w >= 2,
        1 <= h,
        w <= td.0,
        h <= td.1,
        rect_shape(m0.previous_grid, w, h),
        m0.grid_width == Some(w as usize),
        m0.grid_height == Some(h as usize),
        m0.previous_terminal_dimensions == Some(td),
        m0.printing_position_changed_since_last_print == false,
        crate::dynamic_printer::dynamic_print_post(m0, m1, s, td, Ok(out)),
        forall|i: int| 0 <= i < flat_of(s).len() ==> flat_of(s)[i] != '\x1B',
        screen_matches(
            screen,
            flat_of(m0.previous_grid),
            w,
            crate::dynamic_printer::resolve_x(
                m0.printing_position.x_printing_position,
                w,
                td.0 as int,
            ),
            crate::dynamic_printer::resolve_y(
                m0.printing_position.y_printing_position,
                h,
                td.1 as int,
            ),
        ),
    ensures
        screen_matches(
            apply_stream(screen, out@, cx, cy),
            flat_of(s),
            w,
            crate::dynamic_printer::resolve_x(
                m0.printing_position.x_printing_position,
                w,
                td.0 as int,
            ),
            crate::dynamic_printer::resolve_y(
                m0.printing_position.y_printing_position,
                h,
                td.1 as int,
            ),
        ),
{
    let ox = crate::dynamic_printer::resolve_x(
        m0.printing_position.x_printing_position,
        w,
        td.0 as int,
    );
    let oy = crate::dynamic_printer::resolve_y(
        m0.printing_position.y_printing_position,
        h,
        td.1 as int,
    );
    crate::grid::lemma_grid_dims_to_rect(s, w, h);
    assert(m0.previous_grid.len() > 0);
    assert(crate::dynamic_printer::dynamic_print_success(m0, m1, s, td, out@, w, h));
    assert(out@ == serialize_runs(
        pixel_differences(flat_of(m0.previous_grid), flat_of(s), w),
        ox,
        oy,
        w,
    ));
    crate::dynamic_printer::lemma_resolve_x_bounds(
        m0.printing_position.x_printing_position,
        w,
        td.0 as int,
    );
    crate::dynamic_printer::lemma_resolve_y_bounds(
        m0.printing_position.y_printing_position,
        h,
        td.1 as int,
    );
    lemma_stream_round_trip(screen, m0.previous_grid, s, w, h, ox, oy, cx, cy);
}

} // verus!

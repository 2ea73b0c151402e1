//! The difference engine: the maximal runs of changed cells between two
//! flattened grids of one shape, and the escape stream that repaints them.

use crate::escape::{esc_move_to, push_move_to};
use crate::grid::{break_char, chars_of, chars_to_string, first_break, flat_of};
use vstd::prelude::*;

verus! {

/// One maximal run of changed cells: the replacement characters (with a row
/// break embedded wherever the run crosses a row boundary) and the flat
/// index of the run's first cell.
#[derive(Debug)]
pub struct PixelDifference {
    pub pixels: String,
    pub index: usize,
}

/// The spec-level form of one run.
pub ghost struct RunSpec {
    pub index: int,
    pub payload: Seq<char>,
}

/// The spec-level form of a list of runs.
pub open spec fn runs_view(rs: Seq<PixelDifference>) -> Seq<RunSpec> {
    rs.map_values(|p: PixelDifference| RunSpec { index: p.index as int, payload: p.pixels@ })
}

/// What one more changed cell at flat index `i` adds to the payload of the
/// run it extends: the cell's new character, preceded by a row break when
/// the run just crossed a row boundary — except at the grid's very last
/// cell, where the break is suppressed.
pub open spec fn payload_step(new: Seq<char>, w: int, i: int) -> Seq<char> {
    if i % w == 0 && i != new.len() - 1 {
        seq![break_char(), new[i]]
    } else {
        seq![new[i]]
    }
}

/// The runs of changed cells among the first `n` cells of the two flattened
/// grids, in scan order: a changed cell whose left neighbour also changed
/// extends the current run, any other changed cell opens a new one.
pub open spec fn diff_runs_upto(old: Seq<char>, new: Seq<char>, w: int, n: int) -> Seq<RunSpec>
    decreases n,
{
    if n <= 0 {
        Seq::empty()
    } else {
        let prev = diff_runs_upto(old, new, w, n - 1);
        let i = n - 1;
        if old[i] == new[i] {
            prev
        } else if i > 0 && old[i - 1] != new[i - 1] {
            prev.update(
                prev.len() - 1,
                RunSpec {
                    index: prev.last().index,
                    payload: prev.last().payload + payload_step(new, w, i),
                },
            )
        } else {
            prev.push(RunSpec { index: i, payload: seq![new[i]] })
        }
    }
}

/// All runs of changed cells between the two flattened grids.
pub open spec fn pixel_differences(old: Seq<char>, new: Seq<char>, w: int) -> Seq<RunSpec> {
    diff_runs_upto(old, new, w, new.len() as int)
}

/// Computes the runs of changed cells between the flattened previous and
/// new grids, in scan order.
pub fn compute_pixel_differences(old_flat: &Vec<char>, new_flat: &Vec<char>, width: usize) -> (runs:
    Vec<PixelDifference>)
    requires
        old_flat@.len() == new_flat@.len(),
        width >= 1,
    ensures
        runs_view(runs@) == pixel_differences(old_flat@, new_flat@, width as int),
        forall|k: int|
            0 <= k < runs@.len() ==> 0 <= (#[trigger] runs@[k]).index < new_flat@.len()
                && runs@[k].pixels@.len() <= 2 * new_flat@.len(),
{
    let ghost old_s = old_flat@;
    let ghost new_s = new_flat@;
    let n = new_flat.len();
    let mut runs: Vec<PixelDifference> = Vec::new();
    let mut cur_pixels: Vec<char> = Vec::new();
    let mut cur_index: usize = 0;
    let mut has_cur: bool = false;
    let mut i: usize = 0;
    while i < n
        invariant
            old_s == old_flat@,
            new_s == new_flat@,
            n == new_s.len(),
            old_s.len() == new_s.len(),
            width >= 1,
            i <= n,
            has_cur == (i > 0 && old_s[i - 1] != new_s[i - 1]),
            has_cur ==> cur_index < i && cur_pixels@.len() >= 1 && cur_pixels@.len() <= 2 * i,
            runs_view(runs@) + if has_cur {
                seq![RunSpec { index: cur_index as int, payload: cur_pixels@ }]
            } else {
                Seq::<RunSpec>::empty()
            } == diff_runs_upto(old_s, new_s, width as int, i as int),
            forall|k: int|
                0 <= k < runs@.len() ==> 0 <= (#[trigger] runs@[k]).index < n
                    && runs@[k].pixels@.len() <= 2 * n,
        decreases n - i,
    {
        let ghost prev = diff_runs_upto(old_s, new_s, width as int, i as int);
        let oc = old_flat[i];
        let nc = new_flat[i];
        if oc != nc {
            if has_cur {
                let ghost old_payload = cur_pixels@;
                let ghost old_run = RunSpec { index: cur_index as int, payload: old_payload };
                // the run continues; cross a row boundary with a break,
                // unless this is the grid's last cell
                if i % width == 0 && i != n - 1 {
                    cur_pixels.push('\n');
                }
                cur_pixels.push(nc);
                proof {
                    let step = payload_step(new_s, width as int, i as int);
                    assert(cur_pixels@ =~= old_payload + step);
                    let owned = RunSpec {
                        index: cur_index as int,
                        payload: cur_pixels@,
                    };
                    assert(runs_view(runs@) + seq![old_run] == prev);
                    assert(prev.len() >= 1);
                    assert(prev.last() == (runs_view(runs@) + seq![old_run]).last());
                    assert(prev.last() == old_run);
                    assert(diff_runs_upto(old_s, new_s, width as int, i + 1) == prev.update(
                        prev.len() - 1,
                        owned,
                    ));
                    assert(runs_view(runs@) + seq![owned] =~= prev.update(prev.len() - 1, owned));
                }
            } else {
                cur_index = i;
                cur_pixels = Vec::new();
                cur_pixels.push(nc);
                has_cur = true;
                proof {
                    let owned = RunSpec { index: i as int, payload: seq![new_s[i as int]] };
                    assert(diff_runs_upto(old_s, new_s, width as int, i + 1) == prev.push(owned));
                    assert(runs_view(runs@) + seq![owned] =~= prev.push(owned));
                }
            }
        } else {
            if has_cur {
                let finished = PixelDifference {
                    pixels: chars_to_string(&cur_pixels),
                    index: cur_index,
                };
                proof {
                    assert(runs_view(runs@.push(finished)) =~= runs_view(runs@).push(
                        RunSpec { index: cur_index as int, payload: cur_pixels@ },
                    ));
                    assert(runs_view(runs@).push(
                        RunSpec { index: cur_index as int, payload: cur_pixels@ },
                    ) =~= runs_view(runs@) + seq![
                        RunSpec { index: cur_index as int, payload: cur_pixels@ },
                    ]);
                }
                runs.push(finished);
                has_cur = false;
                cur_pixels = Vec::new();
            }
            proof {
                assert(diff_runs_upto(old_s, new_s, width as int, i + 1) == prev);
                assert(runs_view(runs@) + Seq::<RunSpec>::empty() =~= runs_view(runs@));
            }
        }
        i = i + 1;
    }
    if has_cur {
        let finished = PixelDifference {
            pixels: chars_to_string(&cur_pixels),
            index: cur_index,
        };
        proof {
            assert(runs_view(runs@.push(finished)) =~= runs_view(runs@).push(
                RunSpec { index: cur_index as int, payload: cur_pixels@ },
            ));
            assert(runs_view(runs@).push(
                RunSpec { index: cur_index as int, payload: cur_pixels@ },
            ) =~= runs_view(runs@) + seq![
                RunSpec { index: cur_index as int, payload: cur_pixels@ },
            ]);
        }
        runs.push(finished);
    }
    proof {
        assert(runs_view(runs@) =~= pixel_differences(old_s, new_s, width as int));
    }
    runs
}

/// The escape stream for the body of a run already positioned at row `y`:
/// the cells of the current row, then a fresh cursor move to column
/// `home_x` of the next row at each embedded break.
pub open spec fn serialize_mid(payload: Seq<char>, y: int, home_x: int) -> Seq<char>
    decreases payload.len(),
{
    let k = first_break(payload);
    if k < 0 || k >= payload.len() {
        payload
    } else {
        payload.take(k) + esc_move_to(home_x, y + 1) + serialize_mid(
            payload.skip(k + 1),
            y + 1,
            home_x,
        )
    }
}

/// The escape stream that repaints one run: a cursor move to the run's
/// first cell, then its characters, with a fresh cursor move at each
/// embedded row break.
pub open spec fn serialize_run(index: int, payload: Seq<char>, ox: int, oy: int, w: int) -> Seq<
    char,
> {
    esc_move_to(ox + index % w, oy + index / w) + serialize_mid(payload, oy + index / w, ox)
}

/// The escape stream that repaints a whole list of runs, in order.
pub open spec fn serialize_runs(rs: Seq<RunSpec>, ox: int, oy: int, w: int) -> Seq<char>
    decreases rs.len(),
{
    if rs.len() == 0 {
        Seq::empty()
    } else {
        serialize_run(rs[0].index, rs[0].payload, ox, oy, w) + serialize_runs(
            rs.drop_first(),
            ox,
            oy,
            w,
        )
    }
}

pub proof fn lemma_serialize_runs_push(rs: Seq<RunSpec>, r: RunSpec, ox: int, oy: int, w: int)
    ensures
        serialize_runs(rs.push(r), ox, oy, w) == serialize_runs(rs, ox, oy, w) + serialize_run(
            r.index,
            r.payload,
            ox,
            oy,
            w,
        ),
    decreases rs.len(),
{
    if rs.len() == 0 {
        assert(rs.push(r) =~= seq![r]);
        assert(rs.push(r).drop_first() =~= Seq::<RunSpec>::empty());
        assert(serialize_runs(Seq::<RunSpec>::empty(), ox, oy, w) == Seq::<char>::empty());
        assert(rs.push(r)[0] == r);
        assert(serialize_runs(rs.push(r), ox, oy, w) =~= serialize_run(
            r.index,
            r.payload,
            ox,
            oy,
            w,
        ));
        assert(serialize_runs(rs, ox, oy, w) + serialize_run(r.index, r.payload, ox, oy, w)
            =~= serialize_run(r.index, r.payload, ox, oy, w));
    } else {
        assert(rs.push(r).drop_first() =~= rs.drop_first().push(r));
        assert(rs.push(r)[0] == rs[0]);
        lemma_serialize_runs_push(rs.drop_first(), r, ox, oy, w);
        assert(serialize_runs(rs.push(r), ox, oy, w) =~= serialize_runs(rs, ox, oy, w)
            + serialize_run(r.index, r.payload, ox, oy, w));
    }
}

pub(crate) proof fn lemma_serialize_mid_cell(payload: Seq<char>, y: int, home_x: int)
    requires
        payload.len() > 0,
        payload[0] != break_char(),
    ensures
        serialize_mid(payload, y, home_x) == seq![payload[0]] + serialize_mid(
            payload.drop_first(),
            y,
            home_x,
        ),
{
    let k = first_break(payload);
    crate::grid::lemma_first_break(payload);
    assert(first_break(payload.drop_first()) == k - 1);
    if k >= payload.len() {
        assert(serialize_mid(payload, y, home_x) == payload);
        assert(payload =~= seq![payload[0]] + payload.drop_first());
    } else {
        assert(payload.take(k) =~= seq![payload[0]] + payload.drop_first().take(k - 1));
        assert(payload.skip(k + 1) =~= payload.drop_first().skip(k));
        assert(serialize_mid(payload, y, home_x) =~= seq![payload[0]] + (payload.drop_first().take(
            k - 1,
        ) + esc_move_to(home_x, y + 1) + serialize_mid(
            payload.drop_first().skip(k),
            y + 1,
            home_x,
        )));
    }
}

pub(crate) proof fn lemma_serialize_mid_break(payload: Seq<char>, y: int, home_x: int)
    requires
        payload.len() > 0,
        payload[0] == break_char(),
    ensures
        serialize_mid(payload, y, home_x) == esc_move_to(home_x, y + 1) + serialize_mid(
            payload.drop_first(),
            y + 1,
            home_x,
        ),
{
    assert(first_break(payload) == 0);
    assert(payload.take(0) =~= Seq::<char>::empty());
    assert(payload.skip(1) =~= payload.drop_first());
    assert(payload.take(0) + esc_move_to(home_x, y + 1) + serialize_mid(
        payload.skip(1),
        y + 1,
        home_x,
    ) =~= esc_move_to(home_x, y + 1) + serialize_mid(payload.drop_first(), y + 1, home_x));
}

/// Appends the escape stream of one run to `out`.
pub(crate) fn push_serialized_run(
    out: &mut Vec<char>,
    index: usize,
    payload: &Vec<char>,
    origin: (usize, usize),
    grid_width: usize,
)
    requires
        grid_width >= 1,
        origin.0 + grid_width <= usize::MAX,
        origin.1 as int + index as int / grid_width as int + payload@.len() <= usize::MAX as int,
    ensures
        final(out)@ == old(out)@ + serialize_run(
            index as int,
            payload@,
            origin.0 as int,
            origin.1 as int,
            grid_width as int,
        ),
{
    let ghost p = payload@;
    let x: usize = origin.0 + index % grid_width;
    let y0: usize = origin.1 + index / grid_width;
    let ghost whole = serialize_run(
        index as int,
        p,
        origin.0 as int,
        origin.1 as int,
        grid_width as int,
    );
    push_move_to(out, x, y0);
    proof {
        assert(p.skip(0) =~= p);
        assert(out@ + serialize_mid(p, y0 as int, origin.0 as int) =~= old(out)@ + whole);
    }
    let mut y: usize = y0;
    let mut j: usize = 0;
    while j < payload.len()
        invariant
            p == payload@,
            j <= p.len(),
            y0 <= y,
            y as int <= y0 as int + j,
            y0 as int + p.len() <= usize::MAX as int,
            out@ + serialize_mid(p.skip(j as int), y as int, origin.0 as int) == old(out)@ + whole,
        decreases p.len() - j,
    {
        let c = payload[j];
        proof {
            assert(p.skip(j as int)[0] == p[j as int]);
            assert(p.skip(j as int).drop_first() =~= p.skip(j + 1));
        }
        if c == '\n' {
            proof {
                lemma_serialize_mid_break(p.skip(j as int), y as int, origin.0 as int);
            }
            y = y + 1;
            push_move_to(out, origin.0, y);
            proof {
                assert(out@ + serialize_mid(p.skip(j + 1), y as int, origin.0 as int)
                    =~= old(out)@ + whole);
            }
        } else {
            proof {
                lemma_serialize_mid_cell(p.skip(j as int), y as int, origin.0 as int);
            }
            out.push(c);
            proof {
                assert(out@ + serialize_mid(p.skip(j + 1), y as int, origin.0 as int)
                    =~= old(out)@ + whole);
            }
        }
        j = j + 1;
    }
    proof {
        assert(p.skip(p.len() as int) =~= Seq::<char>::empty());
        assert(serialize_mid(Seq::<char>::empty(), y as int, origin.0 as int)
            =~= Seq::<char>::empty());
        assert(out@ =~= old(out)@ + whole);
    }
}

/// How many of the first `n` cell positions hold different characters in
/// the two flattened grids.
pub open spec fn count_changed(old: Seq<char>, new: Seq<char>, n: int) -> int
    decreases n,
{
    if n <= 0 {
        0
    } else {
        count_changed(old, new, n - 1) + if old[n - 1] != new[n - 1] {
            1int
        } else {
            0int
        }
    }
}

/// The total number of cells the runs carry, row-break markers not counted.
pub open spec fn total_changed_cells(rs: Seq<RunSpec>) -> int
    decreases rs.len(),
{
    if rs.len() == 0 {
        0
    } else {
        total_changed_cells(rs.drop_last()) + flat_of(rs.last().payload).len()
    }
}

/// The buffer `buf` with the cells `cells` written at consecutive positions
/// from `index` on.
pub open spec fn apply_run(buf: Seq<char>, index: int, cells: Seq<char>) -> Seq<char> {
    Seq::new(
        buf.len(),
        |j: int|
            if index <= j < index + cells.len() {
                cells[j - index]
            } else {
                buf[j]
            },
    )
}

/// The buffer `buf` after every run has written its cells, in order.
pub open spec fn apply_runs(buf: Seq<char>, rs: Seq<RunSpec>) -> Seq<char>
    decreases rs.len(),
{
    if rs.len() == 0 {
        buf
    } else {
        apply_run(
            apply_runs(buf, rs.drop_last()),
            rs.last().index,
            flat_of(rs.last().payload),
        )
    }
}

/// The payload of the run that opened at cell `start`, restricted to its
/// cells from `i` up to `end`: each cell's new character, with a row-break
/// marker before every cell that begins a row — except the run's first
/// cell, and except the grid's very last cell.
pub open spec fn run_payload_span(new: Seq<char>, w: int, start: int, i: int, end: int) -> Seq<
    char,
>
    decreases end - i,
{
    if i >= end {
        Seq::empty()
    } else {
        (if i > start && i % w == 0 && i != new.len() - 1 {
            seq![break_char(), new[i]]
        } else {
            seq![new[i]]
        }) + run_payload_span(new, w, start, i + 1, end)
    }
}

/// Extending a run by one more cell appends that cell's payload step.
pub proof fn lemma_run_payload_span_snoc(new: Seq<char>, w: int, start: int, i: int, end: int)
    requires
        start <= i <= end,
    ensures
        run_payload_span(new, w, start, i, end + 1) == run_payload_span(new, w, start, i, end) + (
        if end > start && end % w == 0 && end != new.len() - 1 {
            seq![break_char(), new[end]]
        } else {
            seq![new[end]]
        }),
    decreases end - i,
{
    if i >= end {
        assert(run_payload_span(new, w, start, i, end) =~= Seq::<char>::empty());
        assert(run_payload_span(new, w, start, i + 1, end + 1) =~= Seq::<char>::empty());
        assert(run_payload_span(new, w, start, i, end + 1) =~= (if i > start && i % w == 0 && i
            != new.len() - 1 {
            seq![break_char(), new[i]]
        } else {
            seq![new[i]]
        }) + Seq::<char>::empty());
        assert(run_payload_span(new, w, start, i, end + 1) =~= run_payload_span(
            new,
            w,
            start,
            i,
            end,
        ) + (if end > start && end % w == 0 && end != new.len() - 1 {
            seq![break_char(), new[end]]
        } else {
            seq![new[end]]
        }));
    } else {
        lemma_run_payload_span_snoc(new, w, start, i + 1, end);
        assert(run_payload_span(new, w, start, i, end + 1) =~= run_payload_span(
            new,
            w,
            start,
            i,
            end,
        ) + (if end > start && end % w == 0 && end != new.len() - 1 {
            seq![break_char(), new[end]]
        } else {
            seq![new[end]]
        }));
    }
}

/// A run as the difference engine builds it: its payload is exactly the
/// span of new characters from its first cell to some end, markers
/// included.
pub open spec fn run_wf(new: Seq<char>, w: int, r: RunSpec) -> bool {
    exists|end: int|
        0 <= r.index < end <= new.len() && r.payload == run_payload_span(
            new,
            w,
            r.index,
            r.index,
            end,
        )
}

/// The first `n` cells of `new` followed by the rest of `old`.
spec fn mix(old: Seq<char>, new: Seq<char>, n: int) -> Seq<char> {
    Seq::new(
        old.len(),
        |j: int|
            if j < n {
                new[j]
            } else {
                old[j]
            },
    )
}

proof fn lemma_diff_runs_props(old: Seq<char>, new: Seq<char>, w: int, n: int)
    requires
        old.len() == new.len(),
        w >= 1,
        0 <= n <= new.len(),
        forall|i: int| 0 <= i < new.len() ==> new[i] != break_char(),
    ensures
        total_changed_cells(diff_runs_upto(old, new, w, n)) == count_changed(old, new, n),
        apply_runs(old, diff_runs_upto(old, new, w, n)) == mix(old, new, n),
        n > 0 && old[n - 1] != new[n - 1] ==> {
            let rs = diff_runs_upto(old, new, w, n);
            &&& rs.len() >= 1
            &&& 0 <= rs.last().index
            &&& rs.last().index + flat_of(rs.last().payload).len() == n
            &&& flat_of(rs.last().payload) == new.subrange(rs.last().index, n)
            &&& rs.last().payload == run_payload_span(
                new,
                w,
                rs.last().index,
                rs.last().index,
                n,
            )
        },
        forall|k: int|
            0 <= k < diff_runs_upto(old, new, w, n).len() ==> run_wf(
                new,
                w,
                #[trigger] diff_runs_upto(old, new, w, n)[k],
            ),
    decreases n,
{
    if n <= 0 {
        assert(apply_runs(old, Seq::<RunSpec>::empty()) == old);
        assert(mix(old, new, 0) =~= old);
    } else {
        lemma_diff_runs_props(old, new, w, n - 1);
        let prev = diff_runs_upto(old, new, w, n - 1);
        let rs = diff_runs_upto(old, new, w, n);
        let i = n - 1;
        if old[i] == new[i] {
            assert(rs == prev);
            assert(mix(old, new, n) =~= mix(old, new, n - 1));
            assert(forall|k: int| 0 <= k < rs.len() ==> run_wf(new, w, #[trigger] rs[k]));
        } else if i > 0 && old[i - 1] != new[i - 1] {
            // the new cell extends the previous run
            let last = prev.last();
            let step = payload_step(new, w, i);
            let owned = RunSpec { index: last.index, payload: last.payload + step };
            assert(rs == prev.update(prev.len() - 1, owned));
            assert(flat_of(step) == seq![new[i]]) by {
                if i % w == 0 && i != new.len() - 1 {
                    assert(step =~= seq![break_char()] + seq![new[i]]);
                    crate::grid::lemma_flat_of_add(seq![break_char()], seq![new[i]]);
                    crate::grid::lemma_flat_of_one(break_char());
                    crate::grid::lemma_flat_of_one(new[i]);
                    assert(flat_of(step) =~= seq![new[i]]);
                } else {
                    crate::grid::lemma_flat_of_one(new[i]);
                }
            }
            crate::grid::lemma_flat_of_add(last.payload, step);
            let cells = flat_of(last.payload);
            let cells2 = flat_of(owned.payload);
            assert(cells2 =~= cells + seq![new[i]]);
            assert(last.index + cells.len() == i);
            assert(cells == new.subrange(last.index, i));
            assert(cells2 =~= new.subrange(last.index, n));
            // the extended payload is the span grown by one cell
            assert(last.index < i);
            lemma_run_payload_span_snoc(new, w, last.index, last.index, i);
            assert(owned.payload == run_payload_span(new, w, last.index, last.index, n));
            // the counts
            assert(rs.drop_last() =~= prev.drop_last());
            assert(rs.last() == owned);
            assert(total_changed_cells(rs) == total_changed_cells(prev.drop_last())
                + cells2.len());
            assert(total_changed_cells(prev) == total_changed_cells(prev.drop_last())
                + cells.len());
            // the round trip
            let a = apply_runs(old, prev.drop_last());
            assert(apply_runs(old, prev) == apply_run(a, last.index, cells));
            assert(apply_runs(old, rs) == apply_run(a, last.index, cells2));
            assert forall|j: int| 0 <= j < old.len() implies #[trigger] apply_runs(old, rs)[j]
                == mix(old, new, n)[j] by {
                if last.index <= j < n {
                    assert(apply_runs(old, rs)[j] == cells2[j - last.index]);
                    if j < i {
                        assert(cells2[j - last.index] == cells[j - last.index]);
                        assert(apply_runs(old, prev)[j] == cells[j - last.index]);
                        assert(apply_runs(old, prev)[j] == mix(old, new, n - 1)[j]);
                    }
                } else {
                    assert(apply_runs(old, rs)[j] == a[j]);
                    assert(apply_runs(old, prev)[j] == a[j]);
                    assert(apply_runs(old, prev)[j] == mix(old, new, n - 1)[j]);
                }
            }
            assert(apply_runs(old, rs) =~= mix(old, new, n));
            assert forall|k: int| 0 <= k < rs.len() implies run_wf(new, w, #[trigger] rs[k]) by {
                if k < rs.len() - 1 {
                    assert(rs[k] == prev[k]);
                } else {
                    assert(rs[k] == owned);
                    assert(0 <= owned.index < n <= new.len() && owned.payload
                        == run_payload_span(new, w, owned.index, owned.index, n));
                }
            }
        } else {
            // the new cell opens a run of its own
            let run = RunSpec { index: i, payload: seq![new[i]] };
            assert(rs == prev.push(run));
            crate::grid::lemma_flat_of_one(new[i]);
            assert(rs.drop_last() =~= prev);
            assert(rs.last() == run);
            assert(flat_of(run.payload) =~= new.subrange(i, n));
            assert(total_changed_cells(rs) == total_changed_cells(prev) + 1);
            assert(apply_runs(old, rs) == apply_run(
                apply_runs(old, prev),
                i,
                flat_of(run.payload),
            ));
            assert(apply_runs(old, rs) =~= mix(old, new, n));
            assert(run_payload_span(new, w, i, i + 1, n) =~= Seq::<char>::empty());
            assert(run.payload =~= run_payload_span(new, w, i, i, n));
            assert forall|k: int| 0 <= k < rs.len() implies run_wf(new, w, #[trigger] rs[k]) by {
                if k < rs.len() - 1 {
                    assert(rs[k] == prev[k]);
                } else {
                    assert(rs[k] == run);
                    assert(0 <= run.index < n <= new.len() && run.payload == run_payload_span(
                        new,
                        w,
                        run.index,
                        run.index,
                        n,
                    ));
                }
            }
        }
    }
}

/// Printing the same grid twice finds nothing to repaint: the difference
/// of a flattened grid against itself has no runs at all, and serializes
/// to the empty stream.
pub proof fn lemma_identical_grids_empty_difference(s: Seq<char>, w: int, ox: int, oy: int)
    ensures
        pixel_differences(s, s, w) == Seq::<RunSpec>::empty(),
        serialize_runs(pixel_differences(s, s, w), ox, oy, w) == Seq::<char>::empty(),
{
    assert forall|n: int| 0 <= n <= s.len() implies diff_runs_upto(s, s, w, n)
        == Seq::<RunSpec>::empty() by {
        lemma_diff_runs_upto_same(s, w, n);
    }
}

proof fn lemma_diff_runs_upto_same(s: Seq<char>, w: int, n: int)
    ensures
        diff_runs_upto(s, s, w, n) == Seq::<RunSpec>::empty(),
    decreases n,
{
    if n > 0 {
        lemma_diff_runs_upto_same(s, w, n - 1);
    }
}

/// Round trip: writing the emitted runs into a terminal buffer that holds
/// the old flattened grid reproduces the new flattened grid exactly, for
/// any pair of equally sized flattened grids.
pub proof fn lemma_diff_round_trip(old: Seq<char>, new: Seq<char>, w: int)
    requires
        old.len() == new.len(),
        w >= 1,
        forall|i: int| 0 <= i < new.len() ==> new[i] != break_char(),
    ensures
        apply_runs(old, pixel_differences(old, new, w)) == new,
{
    lemma_diff_runs_props(old, new, w, new.len() as int);
    assert(mix(old, new, new.len() as int) =~= new);
}

/// Every run the difference engine reports is a span of the new grid's
/// cells, markers included.
pub proof fn lemma_diff_runs_all_wf(old: Seq<char>, new: Seq<char>, w: int)
    requires
        old.len() == new.len(),
        w >= 1,
        forall|i: int| 0 <= i < new.len() ==> new[i] != break_char(),
    ensures
        forall|k: int|
            0 <= k < pixel_differences(old, new, w).len() ==> run_wf(
                new,
                w,
                #[trigger] pixel_differences(old, new, w)[k],
            ),
{
    lemma_diff_runs_props(old, new, w, new.len() as int);
}

/// The flattened form of any text holds no break characters.
pub proof fn lemma_flat_has_no_breaks(s: Seq<char>)
    ensures
        forall|i: int| 0 <= i < flat_of(s).len() ==> flat_of(s)[i] != break_char(),
{
    assert forall|i: int| 0 <= i < flat_of(s).len() implies flat_of(s)[i] != break_char() by {
        s.lemma_filter_pred(|c: char| c != '\n', i);
    }
}

/// Round trip for whole grids: for any two grids of one shape, writing the
/// emitted runs into a terminal buffer that holds the old grid's cells
/// reproduces the new grid's cells exactly.
pub proof fn lemma_grid_round_trip(old_grid: Seq<char>, new_grid: Seq<char>, w: int, h: int)
    requires
        crate::grid::rect_shape(old_grid, w, h),
        crate::grid::rect_shape(new_grid, w, h),
        w >= 1,
    ensures
        apply_runs(
            flat_of(old_grid),
            pixel_differences(flat_of(old_grid), flat_of(new_grid), w),
        ) == flat_of(new_grid),
{
    crate::grid::lemma_flat_of_rect(old_grid, w, h);
    crate::grid::lemma_flat_of_rect(new_grid, w, h);
    lemma_flat_has_no_breaks(new_grid);
    lemma_diff_round_trip(flat_of(old_grid), flat_of(new_grid), w);
}

/// Diff minimality: the runs carry exactly as many cells as there are
/// positions where the two flattened grids differ — no cell is repainted
/// that did not change.
pub proof fn lemma_diff_minimality(old: Seq<char>, new: Seq<char>, w: int)
    requires
        old.len() == new.len(),
        w >= 1,
        forall|i: int| 0 <= i < new.len() ==> new[i] != break_char(),
    ensures
        total_changed_cells(pixel_differences(old, new, w)) == count_changed(
            old,
            new,
            new.len() as int,
        ),
{
    lemma_diff_runs_props(old, new, w, new.len() as int);
}

impl PixelDifference {
    /// The escape stream that repaints this run on a grid of the given
    /// width drawn at the given origin.
    pub fn into_printable_difference(self, origin: (usize, usize), grid_width: usize) -> (r:
        String)
        requires
            grid_width >= 1,
            origin.0 + grid_width <= usize::MAX,
            origin.1 as int + self.index as int / grid_width as int + self.pixels@.len()
                <= usize::MAX as int,
        ensures
            r@ == serialize_run(
                self.index as int,
                self.pixels@,
                origin.0 as int,
                origin.1 as int,
                grid_width as int,
            ),
    {
        let payload = chars_of(self.pixels.as_str());
        let mut out: Vec<char> = Vec::new();
        push_serialized_run(&mut out, self.index, &payload, origin, grid_width);
        chars_to_string(&out)
    }
}

} // verus!

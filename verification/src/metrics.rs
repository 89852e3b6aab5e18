//! The 3BV difficulty metric: the minimum number of clicks needed to win a
//! field, ignoring chord shortcuts. Each clearing costs one click however large
//! it is, and each remaining numbered tile costs one click of its own.

use vstd::prelude::*;

use crate::clearing::in_clearing;
use crate::clearing::lemma_all_expanding_board_is_one_clearing;
use crate::clearing::ClearingMut;
use vstd::arithmetic::div_mod::lemma_fundamental_div_mod_converse;
use crate::field::Field;
use crate::field::FieldCoordinates;
use crate::field::lemma_index_in_bounds;
use crate::tile::ClickOutcome;
use crate::tile::Tile;
use crate::tile::Flag;
use crate::tile::TileState;

verus! {

/// The number of mine-free tiles among the first `n` entries of a tile
/// sequence: the most clicks any play of the grid could ever need.
pub open spec fn count_safe_prefix<Ct, Cf>(s: Seq<Tile<Ct, Cf>>, n: int) -> int
    decreases n,
{
    if n <= 0 {
        0
    } else {
        count_safe_prefix(s, n - 1) + if s[n - 1].state is Mine {
            0int
        } else {
            1int
        }
    }
}

proof fn lemma_count_safe_agree<Ct, Cf>(s: Seq<Tile<Ct, Cf>>, t: Seq<Tile<Ct, Cf>>, n: int)
    requires
        forall|j: int| 0 <= j < n ==> ((#[trigger] s[j]).state is Mine <==> t[j].state is Mine),
    ensures
        count_safe_prefix(s, n) == count_safe_prefix(t, n),
    decreases n,
{
    if n > 0 {
        lemma_count_safe_agree(s, t, n - 1);
    }
}

/// How the scan normalizes the board first: every open tile is reset to a
/// closed, unflagged one; every other tile, and every payload, is kept.
pub open spec fn normalized_of<Ct, Cf>(f: Field<Ct, Cf>, g: Field<Ct, Cf>) -> bool {
    &&& g.dimensions == f.dimensions
    &&& g.storage@.len() == f.storage@.len()
    &&& forall|j: int|
        0 <= j < f.storage@.len() ==> (#[trigger] g.storage@[j]).state == (
        if f.storage@[j].state.spec_is_open() {
            TileState::<Cf>::ClosedEmpty(Flag::NotFlagged)
        } else {
            f.storage@[j].state
        })
    &&& forall|j: int|
        0 <= j < f.storage@.len() ==> (#[trigger] g.storage@[j]).payload
            == f.storage@[j].payload
}

/// The cell the scan processes at step `k`: row-major order, column varying
/// fastest.
pub open spec fn scan_coord(k: int, w: int) -> FieldCoordinates {
    (((k % w) as usize), ((k / w) as usize))
}

/// The points one scanned cell adds: a closed empty tile always scores one,
/// except a numbered one beside an already opened clearing; a numbered tile
/// still open at scan time scores one; anything else scores nothing.
pub open spec fn bv_delta<Ct, Cf>(before: Field<Ct, Cf>, c: FieldCoordinates) -> int {
    if before.state_at(c) is ClosedEmpty {
        if before.spec_peek(c) is OpenClearing {
            1
        } else if !before.spec_has_open_empty_neighbor(c) {
            1
        } else {
            0
        }
    } else if before.state_at(c) is OpenNumber {
        1
    } else {
        0
    }
}

/// Opening exactly the scanned cell, as `open` does.
pub open spec fn bv_open_step<Ct, Cf>(
    before: Field<Ct, Cf>,
    c: FieldCoordinates,
    after: Field<Ct, Cf>,
) -> bool {
    after.dimensions == before.dimensions && after.storage@ == before.spec_opened_storage(c)
}

/// Opening the whole clearing around the scanned cell, shore included, as the
/// clearing engine does.
pub open spec fn bv_clearing_step<Ct, Cf>(
    mid: Field<Ct, Cf>,
    c: FieldCoordinates,
    after: Field<Ct, Cf>,
) -> bool {
    &&& after.dimensions == mid.dimensions
    &&& after.storage@.len() == mid.storage@.len()
    &&& forall|d: FieldCoordinates|
        #![trigger after.state_at(d)]
        mid.spec_in_range(d) ==> after.state_at(d) == (if in_clearing(&mid, c, true, d)
            && mid.state_at(d) is ClosedEmpty {
            TileState::<Cf>::OpenEmpty
        } else {
            mid.state_at(d)
        })
    &&& forall|k: int|
        0 <= k < mid.storage@.len() ==> #[trigger] after.storage@[k].payload
            == mid.storage@[k].payload
}

/// How one scanned cell advances the board: a closed empty tile is opened and,
/// when it anchors a clearing, the clearing opens with it; any other tile
/// leaves the board untouched. Each step is deterministic in the board before
/// it.
pub open spec fn bv_cell_step<Ct, Cf>(
    before: Field<Ct, Cf>,
    c: FieldCoordinates,
    after: Field<Ct, Cf>,
) -> bool {
    if before.state_at(c) is ClosedEmpty {
        if before.spec_peek(c) is OpenClearing {
            exists|mid: Field<Ct, Cf>|
                #[trigger] bv_open_step(before, c, mid) && bv_clearing_step(mid, c, after)
        } else {
            bv_open_step(before, c, after)
        }
    } else {
        after == before
    }
}

/// The points collected over the first `n` scanned cells of a replay.
pub open spec fn bv_count<Ct, Cf>(trace: Seq<Field<Ct, Cf>>, w: int, n: int) -> int
    decreases n,
{
    if n <= 0 {
        0
    } else {
        bv_count(trace, w, n - 1) + bv_delta(trace[n - 1], scan_coord(n - 1, w))
    }
}

proof fn lemma_bv_count_agree<Ct, Cf>(
    t1: Seq<Field<Ct, Cf>>,
    t2: Seq<Field<Ct, Cf>>,
    w: int,
    n: int,
)
    requires
        forall|j: int| 0 <= j < n ==> t1[j] == t2[j],
    ensures
        bv_count(t1, w, n) == bv_count(t2, w, n),
    decreases n,
{
    if n > 0 {
        lemma_bv_count_agree(t1, t2, w, n - 1);
    }
}

/// A full run of the metric: the board is normalized, then scanned cell by
/// cell in row-major order, and the total is the points the cells collected.
/// The chain of boards pins the whole computation to the input board.
pub open spec fn bv_run<Ct, Cf>(
    f: Field<Ct, Cf>,
    trace: Seq<Field<Ct, Cf>>,
    total: int,
) -> bool {
    &&& trace.len() == f.spec_width() * f.spec_height() + 1
    &&& normalized_of(f, trace[0])
    &&& forall|k: int|
        0 <= k < f.spec_width() * f.spec_height() ==> bv_cell_step(
            trace[k],
            scan_coord(k, f.spec_width()),
            #[trigger] trace[k + 1],
        )
    &&& total == bv_count(trace, f.spec_width(), f.spec_width() * f.spec_height())
}

/// A field without a single mine has a zero neighbor count everywhere.
proof fn lemma_no_mines_anywhere<Ct, Cf>(f: &Field<Ct, Cf>)
    requires
        f.wf(),
        forall|j: int|
            0 <= j < f.storage@.len() ==> !((#[trigger] f.storage@[j]).state is Mine),
    ensures
        forall|x: int, y: int| !(#[trigger] f.spec_mine_at(x, y)),
        forall|x: int, y: int| #[trigger] f.spec_neighbor_mines(x, y) == 0,
{
    assert forall|x: int, y: int| !(#[trigger] f.spec_mine_at(x, y)) by {
        if 0 <= x < f.spec_width() && 0 <= y < f.spec_height() {
            lemma_index_in_bounds(f.spec_width(), f.spec_height(), x, y);
        }
    }
}

impl<Ct, Cf> Field<Ct, Cf> {
    /// Whether some of the 8 surrounding tiles is an `OpenEmpty` tile: the mark
    /// that a previously counted clearing has already reached this spot.
    pub open spec fn spec_has_open_empty_neighbor(&self, c: FieldCoordinates) -> bool {
        exists|i: int|
            0 <= i < 8 && self.chord_target_ok(c, i) && self.state_at(
                #[trigger] self.chord_target(c, i),
            ) is OpenEmpty
    }

    /// Returns whether some of the 8 surrounding tiles is `OpenEmpty`.
    fn has_open_empty_neighbor(&self, c: FieldCoordinates) -> (r: bool)
        requires
            self.wf(),
            self.spec_in_range(c),
        ensures
            r == self.spec_has_open_empty_neighbor(c),
    {
        let mut i: usize = 0;
        while i < 8
            invariant
                i <= 8,
                self.wf(),
                self.spec_in_range(c),
                forall|j: int|
                    0 <= j < i ==> !(self.chord_target_ok(c, j) && self.state_at(
                        #[trigger] self.chord_target(c, j),
                    ) is OpenEmpty),
            decreases 8 - i,
        {
            match self.chord_target_exec(c, i) {
                Some(d) => {
                    let area = self.storage.len();
                    proof {
                        lemma_index_in_bounds(
                            self.spec_width(),
                            self.spec_height(),
                            d.0 as int,
                            d.1 as int,
                        );
                    }
                    let di = d.1 * self.dimensions.0 + d.0;
                    if matches!(&self.storage[di].state, TileState::OpenEmpty) {
                        proof {
                            assert(self.chord_target_ok(c, i as int) && self.state_at(
                                self.chord_target(c, i as int),
                            ) is OpenEmpty);
                        }
                        return true;
                    }
                },
                None => {},
            }
            i += 1;
        }
        false
    }

    /// Calculates the 3BV value of the field: first every open tile is reset to
    /// closed, then the grid is scanned in row-major order; each clearing found
    /// is opened in full (shore included) and adds one point, and each numbered
    /// tile not already reached by a counted clearing adds one point. Flags do
    /// not influence the metric. The field is modified destructively, so it is
    /// taken by value. A replay chain in the contract pins the whole
    /// computation — the normalization, every scanned cell's effect and its
    /// score — to the input board; in particular the result is zero exactly
    /// when every tile holds a mine, is one on any completely mine-free field
    /// (the whole board is a single clearing), and never exceeds the number of
    /// mine-free tiles.
    pub fn calculate_3bv(self) -> (r: usize)
        requires
            self.wf(),
        ensures
            r as int <= self.storage@.len(),
            r as int <= count_safe_prefix(self.storage@, self.storage@.len() as int),
            (forall|k: int|
                0 <= k < self.storage@.len() ==> !((#[trigger] self.storage@[k]).state is Mine))
                ==> r == 1,
            (r == 0) <==> (forall|k: int|
                0 <= k < self.storage@.len() ==> (#[trigger] self.storage@[k]).state is Mine),
            exists|trace: Seq<Field<Ct, Cf>>| #[trigger] bv_run(self, trace, r as int),
    {
        let mut field = self;
        let ghost f0 = field;
        let width = field.dimensions.0;
        let height = field.dimensions.1;
        let area = field.storage.len();
        // First pass: reset every open tile, normalizing a partially played
        // grid back to its as-generated layout.
        let mut k: usize = 0;
        while k < area
            invariant
                k <= area,
                field.wf(),
                width == field.dimensions.0,
                height == field.dimensions.1,
                area == field.storage@.len(),
                area == f0.storage@.len(),
                forall|j: int|
                    0 <= j < k ==> (#[trigger] field.storage@[j]).state == (
                    if f0.storage@[j].state.spec_is_open() {
                        TileState::<Cf>::ClosedEmpty(Flag::NotFlagged)
                    } else {
                        f0.storage@[j].state
                    }),
                forall|j: int| k <= j < area ==> (#[trigger] field.storage@[j]) == f0.storage@[j],
                forall|j: int|
                    0 <= j < k ==> (#[trigger] field.storage@[j]).payload == f0.storage@[j].payload,
            decreases area - k,
        {
            if field.storage[k].state.is_open() {
                field.storage[k].state = TileState::ClosedEmpty(Flag::NotFlagged);
            }
            k += 1;
        }
        let ghost fnorm = field;
        let ghost mut trace: Seq<Field<Ct, Cf>> = seq![fnorm];
        proof {
            assert(forall|j: int|
                0 <= j < area ==> !(#[trigger] fnorm.storage@[j]).state.spec_is_open());
            assert(forall|j: int|
                0 <= j < area ==> ((#[trigger] fnorm.storage@[j]).state is Mine
                    <==> f0.storage@[j].state is Mine));
            assert(normalized_of(f0, fnorm));
        }
        // Second pass: count clearings and isolated numbered tiles.
        proof {
            assert(area == width as int * height as int);
        }
        let mut result: usize = 0;
        let mut y: usize = 0;
        while y < height
            invariant
                y <= height,
                field.wf(),
                width == field.dimensions.0,
                height == field.dimensions.1,
                area == field.storage@.len(),
                area == fnorm.storage@.len(),
                fnorm.wf(),
                width == fnorm.dimensions.0,
                height == fnorm.dimensions.1,
                forall|j: int|
                    0 <= j < area ==> !(#[trigger] fnorm.storage@[j]).state.spec_is_open(),
                result as int <= y as int * width as int,
                result as int <= count_safe_prefix(fnorm.storage@, y as int * width as int),
                forall|d: FieldCoordinates|
                    #![trigger field.state_at(d)]
                    fnorm.spec_in_range(d) ==> (field.state_at(d) == fnorm.state_at(d) || (
                    fnorm.state_at(d) is ClosedEmpty && field.state_at(d).spec_is_open())),
                result == 0 ==> field.storage@ == fnorm.storage@ && (forall|j: int|
                    0 <= j < y as int * width as int ==> (#[trigger] fnorm.storage@[j]).state
                        is Mine),
                (forall|j: int| 0 <= j < area ==> (#[trigger] fnorm.storage@[j]).state is Mine)
                    ==> result == 0,
                (forall|j: int|
                    0 <= j < area ==> !((#[trigger] fnorm.storage@[j]).state is Mine)) ==> ((y == 0
                    && result == 0) || (result == 1 && forall|d: FieldCoordinates|
                    fnorm.spec_in_range(d) ==> (#[trigger] field.state_at(d)) is OpenEmpty)),
                trace.len() == y as int * width as int + 1,
                trace[0] == fnorm,
                trace[trace.len() - 1] == field,
                forall|k2: int|
                    0 <= k2 < y as int * width as int ==> bv_cell_step(
                        trace[k2],
                        scan_coord(k2, width as int),
                        #[trigger] trace[k2 + 1],
                    ),
                result as int == bv_count(trace, width as int, y as int * width as int),
            decreases height - y,
        {
            let ghost row_base = y as int * width as int;
            proof {
                assert(row_base >= 0 && row_base + width <= area) by (nonlinear_arith)
                    requires
                        0 <= (y as int) < (height as int),
                        width as int >= 1,
                        row_base == y as int * width as int,
                        area == width as int * height as int,
                ;
            }
            let mut x: usize = 0;
            while x < width
                invariant
                    x <= width,
                    y < height,
                    field.wf(),
                    width == field.dimensions.0,
                    height == field.dimensions.1,
                    area == field.storage@.len(),
                    area == fnorm.storage@.len(),
                    fnorm.wf(),
                    width == fnorm.dimensions.0,
                    height == fnorm.dimensions.1,
                    forall|j: int|
                        0 <= j < area ==> !(#[trigger] fnorm.storage@[j]).state.spec_is_open(),
                    row_base == y as int * width as int,
                    row_base + width <= area,
                    result as int <= row_base + x as int,
                    result as int <= count_safe_prefix(fnorm.storage@, row_base + x as int),
                    forall|d: FieldCoordinates|
                        #![trigger field.state_at(d)]
                        fnorm.spec_in_range(d) ==> (field.state_at(d) == fnorm.state_at(d) || (
                        fnorm.state_at(d) is ClosedEmpty && field.state_at(d).spec_is_open())),
                    result == 0 ==> field.storage@ == fnorm.storage@ && (forall|j: int|
                        0 <= j < row_base + x as int ==> (#[trigger] fnorm.storage@[j]).state
                            is Mine),
                    (forall|j: int| 0 <= j < area ==> (#[trigger] fnorm.storage@[j]).state is Mine)
                        ==> result == 0,
                    (forall|j: int|
                        0 <= j < area ==> !((#[trigger] fnorm.storage@[j]).state is Mine)) ==> ((y
                        == 0 && x == 0 && result == 0) || (result == 1
                        && forall|d: FieldCoordinates|
                            fnorm.spec_in_range(d) ==> (#[trigger] field.state_at(d)) is OpenEmpty)),
                    trace.len() == row_base + x as int + 1,
                    trace[0] == fnorm,
                    trace[trace.len() - 1] == field,
                    forall|k2: int|
                        0 <= k2 < row_base + x as int ==> bv_cell_step(
                            trace[k2],
                            scan_coord(k2, width as int),
                            #[trigger] trace[k2 + 1],
                        ),
                    result as int == bv_count(trace, width as int, row_base + x as int),
                decreases width - x,
            {
                proof {
                    lemma_index_in_bounds(width as int, height as int, x as int, y as int);
                    lemma_fundamental_div_mod_converse(
                        row_base + x as int,
                        width as int,
                        y as int,
                        x as int,
                    );
                    assert(scan_coord(row_base + x as int, width as int) == (x, y));
                }
                let idx = y * width + x;
                let ghost before = field;
                let ghost result0 = result;
                let required = field.storage[idx].state.is_required_to_open();
                let already_number = matches!(&field.storage[idx].state, TileState::OpenNumber(_));
                if required {
                    let outcome = match field.open((x, y)) {
                        Some(o) => o,
                        None => vstd::pervasive::unreached(),
                    };
                    proof {
                        crate::field::lemma_open_preserves_rest(before, field, (x, y));
                    }
                    let ghost mid = field;
                    proof {
                        assert(before.state_at((x, y)) is ClosedEmpty);
                        assert(fnorm.state_at((x, y)) is ClosedEmpty);
                        assert forall|d: FieldCoordinates| fnorm.spec_in_range(d) implies (
                        mid.state_at(d) == fnorm.state_at(d) || (fnorm.state_at(d) is ClosedEmpty
                            && mid.state_at(d).spec_is_open())) by {
                            if d != (x, y) {
                                assert(mid.state_at(d) == before.state_at(d));
                            }
                        }
                    }
                    match outcome {
                        ClickOutcome::OpenClearing => {
                            let cm = ClearingMut { anchor_location: (x, y) };
                            proof {
                                assert(field.state_at((x, y)) is OpenEmpty);
                                assert(field.spec_neighbor_mines(x as int, y as int)
                                    == before.spec_neighbor_mines(x as int, y as int));
                            }
                            cm.open(&mut field, true);
                            result += 1;
                            proof {
                                assert forall|d: FieldCoordinates| fnorm.spec_in_range(d) implies (
                                field.state_at(d) == fnorm.state_at(d) || (fnorm.state_at(
                                    d,
                                ) is ClosedEmpty && field.state_at(d).spec_is_open())) by {
                                    if field.state_at(d) != mid.state_at(d) {
                                        assert(mid.state_at(d) is ClosedEmpty);
                                        assert(field.state_at(d) == TileState::<Cf>::OpenEmpty);
                                    }
                                }
                                assert(bv_open_step(before, (x, y), mid));
                                assert(bv_clearing_step(mid, (x, y), field));
                                assert(bv_cell_step(before, (x, y), field));
                                assert(result as int - result0 as int == bv_delta(
                                    before,
                                    (x, y),
                                ));
                                if forall|j: int|
                                    0 <= j < area ==> !((#[trigger] fnorm.storage@[j]).state
                                        is Mine) {
                                    // On a mine-free board the scan opens on its
                                    // very first step, and that one clearing
                                    // covers the whole board.
                                    assert(result0 == 0 && x == 0 && y == 0);
                                    assert(before.storage@ == fnorm.storage@);
                                    lemma_no_mines_anywhere(&fnorm);
                                    assert forall|x2: int, y2: int| !(#[trigger] mid.spec_mine_at(
                                        x2,
                                        y2,
                                    )) by {
                                        assert(mid.spec_mine_at(x2, y2) == before.spec_mine_at(
                                            x2,
                                            y2,
                                        ));
                                        assert(before.spec_mine_at(x2, y2) == fnorm.spec_mine_at(
                                            x2,
                                            y2,
                                        ));
                                    }
                                    assert forall|d: FieldCoordinates| mid.spec_in_range(
                                        d,
                                    ) implies (#[trigger] mid.spec_peek(d)) is OpenClearing by {
                                        lemma_index_in_bounds(
                                            width as int,
                                            height as int,
                                            d.0 as int,
                                            d.1 as int,
                                        );
                                        if d == (x, y) {
                                            assert(mid.state_at(d) is OpenEmpty);
                                        } else {
                                            assert(mid.state_at(d) == before.state_at(d));
                                            assert(mid.state_at(d) is ClosedEmpty);
                                            assert(mid.spec_neighbor_mines(d.0 as int, d.1 as int)
                                                == 0);
                                        }
                                    }
                                    assert forall|d: FieldCoordinates| fnorm.spec_in_range(
                                        d,
                                    ) implies in_clearing(&mid, (x, y), true, d) by {
                                        lemma_all_expanding_board_is_one_clearing(
                                            &mid,
                                            (x, y),
                                            true,
                                            d,
                                        );
                                    }
                                    assert forall|d: FieldCoordinates| fnorm.spec_in_range(
                                        d,
                                    ) implies (#[trigger] field.state_at(d)) is OpenEmpty by {
                                        lemma_index_in_bounds(
                                            width as int,
                                            height as int,
                                            d.0 as int,
                                            d.1 as int,
                                        );
                                        if d != (x, y) {
                                            assert(mid.state_at(d) == before.state_at(d));
                                            assert(mid.state_at(d) is ClosedEmpty);
                                        }
                                    }
                                }
                            }
                        },
                        ClickOutcome::OpenNumber(_) => {
                            if !field.has_open_empty_neighbor((x, y)) {
                                result += 1;
                            }
                            proof {
                                if result == 0 {
                                    // A numbered tile on an untouched grid has
                                    // no open neighbor, so it is always
                                    // counted; reaching zero here is absurd.
                                    assert(before.storage@ == fnorm.storage@);
                                    assert forall|i2: int|
                                        0 <= i2 < 8 && field.chord_target_ok(
                                            (x, y),
                                            i2,
                                        ) implies !(field.state_at(
                                        #[trigger] field.chord_target((x, y), i2),
                                    ) is OpenEmpty) by {
                                        let d = field.chord_target((x, y), i2);
                                        lemma_index_in_bounds(
                                            width as int,
                                            height as int,
                                            d.0 as int,
                                            d.1 as int,
                                        );
                                        if d != (x, y) {
                                            assert(field.state_at(d) == before.state_at(d));
                                            assert(!fnorm.storage@[fnorm.spec_index_of(
                                                d,
                                            )].state.spec_is_open());
                                        }
                                    }
                                    assert(!field.spec_has_open_empty_neighbor((x, y)));
                                    assert(false);
                                }
                                if forall|j: int|
                                    0 <= j < area ==> !((#[trigger] fnorm.storage@[j]).state
                                        is Mine) {
                                    // A mine-free board never shows a number.
                                    assert(result0 == 0 && x == 0 && y == 0);
                                    assert(before.storage@ == fnorm.storage@);
                                    lemma_no_mines_anywhere(&fnorm);
                                    assert(before.spec_neighbor_mines(x as int, y as int)
                                        == fnorm.spec_neighbor_mines(x as int, y as int));
                                    assert(false);
                                }
                                // Opening the cell itself leaves its 8
                                // neighbors untouched, so the shore check
                                // reads the same answer as before the open.
                                assert forall|i2: int|
                                    0 <= i2 < 8 && before.chord_target_ok((x, y), i2) implies
                                    field.state_at(
                                    #[trigger] before.chord_target((x, y), i2),
                                ) == before.state_at(before.chord_target((x, y), i2)) by {
                                    let dd = before.chord_target((x, y), i2);
                                    assert(dd != (x, y));
                                }
                                assert(field.spec_has_open_empty_neighbor((x, y))
                                    == before.spec_has_open_empty_neighbor((x, y))) by {
                                    if field.spec_has_open_empty_neighbor((x, y)) {
                                        let i2 = choose|i2: int|
                                            0 <= i2 < 8 && field.chord_target_ok((x, y), i2)
                                                && field.state_at(
                                                #[trigger] field.chord_target((x, y), i2),
                                            ) is OpenEmpty;
                                        assert(before.chord_target_ok((x, y), i2)
                                            && before.state_at(
                                            before.chord_target((x, y), i2),
                                        ) is OpenEmpty);
                                    }
                                    if before.spec_has_open_empty_neighbor((x, y)) {
                                        let i2 = choose|i2: int|
                                            0 <= i2 < 8 && before.chord_target_ok((x, y), i2)
                                                && before.state_at(
                                                #[trigger] before.chord_target((x, y), i2),
                                            ) is OpenEmpty;
                                        assert(field.chord_target_ok((x, y), i2)
                                            && field.state_at(
                                            field.chord_target((x, y), i2),
                                        ) is OpenEmpty);
                                    }
                                }
                                assert(bv_open_step(before, (x, y), field));
                                assert(bv_cell_step(before, (x, y), field));
                                assert(result as int - result0 as int == bv_delta(
                                    before,
                                    (x, y),
                                ));
                            }
                        },
                        _ => {
                            proof {
                                assert(false);
                            }
                        },
                    }
                } else if already_number {
                    result += 1;
                }
                proof {
                    // Preservation of the zero-result bookkeeping.
                    if result == 0 {
                        assert(!required && !already_number);
                        assert(field.storage@ == before.storage@);
                        assert(fnorm.storage@[row_base + x as int].state is Mine);
                    }
                    assert(result as int <= row_base + x as int + 1);
                    // A point is only ever scored for a mine-free tile.
                    if result != result0 {
                        if already_number && !required {
                            assert(before.state_at((x, y)) is OpenNumber);
                            assert(fnorm.state_at((x, y)) is ClosedEmpty);
                        }
                        assert(!(fnorm.storage@[row_base + x as int].state is Mine));
                    }
                    // On a mine-free board, a tile that needed no work means
                    // the whole board was opened by the first step already.
                    if forall|j: int|
                        0 <= j < area ==> !((#[trigger] fnorm.storage@[j]).state is Mine) {
                        if !required {
                            if result0 == 0 && x == 0 && y == 0 {
                                assert(before.storage@ == fnorm.storage@);
                                assert(!fnorm.storage@[row_base + x as int].state.spec_is_open());
                                assert(!(fnorm.storage@[row_base + x as int].state is Mine));
                                assert(before.state_at((x, y)) is ClosedEmpty);
                                assert(false);
                            }
                            assert(result0 == 1);
                            assert(before.state_at((x, y)) is OpenEmpty);
                            assert(!already_number);
                        }
                    }
                    assert(result as int <= count_safe_prefix(
                        fnorm.storage@,
                        row_base + x as int + 1,
                    ));
                    if !required {
                        assert(field == before);
                        assert(bv_cell_step(before, (x, y), field));
                        assert(result as int - result0 as int == bv_delta(before, (x, y)));
                    }
                    // Extend the replay chain by the cell just processed.
                    let k2 = row_base + x as int;
                    let t2 = trace.push(field);
                    lemma_bv_count_agree(trace, t2, width as int, k2);
                    assert(t2[k2] == before);
                    assert forall|j: int| 0 <= j < k2 + 1 implies bv_cell_step(
                        t2[j],
                        scan_coord(j, width as int),
                        #[trigger] t2[j + 1],
                    ) by {
                        if j < k2 {
                            assert(t2[j] == trace[j]);
                            assert(t2[j + 1] == trace[j + 1]);
                        } else {
                            assert(t2[j] == before);
                            assert(t2[j + 1] == field);
                        }
                    }
                    trace = trace.push(field);
                }
                x += 1;
            }
            proof {
                assert((y as int + 1) * width as int == y as int * width as int + width as int)
                    by (nonlinear_arith);
            }
            y += 1;
        }
        proof {
            assert(height as int * width as int == width as int * height as int)
                by (nonlinear_arith);
            lemma_count_safe_agree(fnorm.storage@, f0.storage@, area as int);
            if forall|k: int| 0 <= k < area ==> !((#[trigger] f0.storage@[k]).state is Mine) {
                assert forall|j: int| 0 <= j < area implies !((#[trigger] fnorm.storage@[j]).state
                    is Mine) by {
                    assert(!(f0.storage@[j].state is Mine));
                }
                assert(result == 1);
            }
            if result == 0 {
                assert forall|j: int| 0 <= j < area implies (#[trigger] f0.storage@[j]).state
                    is Mine by {
                    assert(fnorm.storage@[j].state is Mine);
                }
            } else {
                if forall|j: int| 0 <= j < area ==> (#[trigger] f0.storage@[j]).state is Mine {
                    assert forall|j: int| 0 <= j < area implies (#[trigger] fnorm.storage@[j]).state
                        is Mine by {
                        assert(f0.storage@[j].state is Mine);
                        assert(!f0.storage@[j].state.spec_is_open());
                    }
                    assert(false);
                }
            }
            // The chain built cell by cell is a full run of the metric.
            assert(trace.len() == f0.spec_width() * f0.spec_height() + 1);
            assert forall|k2: int| 0 <= k2 < f0.spec_width() * f0.spec_height() implies
                bv_cell_step(trace[k2], scan_coord(k2, f0.spec_width()), #[trigger] trace[k2
                + 1]) by {
                assert(bv_cell_step(trace[k2], scan_coord(k2, width as int), trace[k2 + 1]));
            }
            assert(result as int == bv_count(
                trace,
                f0.spec_width(),
                f0.spec_width() * f0.spec_height(),
            ));
            assert(bv_run(f0, trace, result as int));
        }
        result
    }
}

} // verus!

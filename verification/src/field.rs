//! The playfield: a fixed-size, row-major grid of tiles with bounds-checked
//! access, neighbor counting, and the click-resolution state machine.

use vstd::prelude::*;

use crate::clearing::count_true_prefix;
use crate::clearing::lemma_count_true_all_false;
use crate::clearing::lemma_count_true_le;
use crate::clearing::lemma_count_true_update;
use crate::tile::ClickOutcome;
use crate::tile::Flag;
use crate::tile::Tile;
use crate::tile::TileState;

verus! {

/// The dimensions of a field: `(width, height)`, both at least 1.
pub type FieldDimensions = (usize, usize);

/// The coordinates of a tile on a field: `(column, row)`, both starting at
/// zero, so `(0, 0)` is the first tile of the first row.
pub type FieldCoordinates = (usize, usize);

/// The outcome of a chord operation: the outcomes for the 8 surrounding tiles
/// in clockwise order starting from up-left.
pub type ChordOutcome = [ClickOutcome; 8];

/// One entry of a recursive chord: the coordinates chorded at, and the chord's
/// outcome there.
pub type RecursiveChordOutcome = (FieldCoordinates, ChordOutcome);

/// A playfield: a matrix of tiles stored row-major (column varying fastest).
pub struct Field<Ct, Cf> {
    /// `(width, height)`; fixed for the lifetime of the field. Managed by the
    /// library: the contracts assume `wf()`, which constructors establish and
    /// every operation preserves.
    pub dimensions: FieldDimensions,
    /// The tiles in row-major order (column varying fastest); its length is
    /// always exactly `width * height`.
    pub storage: Vec<Tile<Ct, Cf>>,
}

impl<Ct, Cf> Field<Ct, Cf> {
    /// The number of columns.
    pub open spec fn spec_width(&self) -> int {
        self.dimensions.0 as int
    }

    /// The number of rows.
    pub open spec fn spec_height(&self) -> int {
        self.dimensions.1 as int
    }

    /// The structural invariant: strictly positive dimensions and a backing
    /// vector of exactly `width * height` tiles. Established at construction
    /// and preserved by every operation; no resize exists.
    pub open spec fn wf(&self) -> bool {
        &&& self.spec_width() >= 1
        &&& self.spec_height() >= 1
        &&& self.storage@.len() == self.spec_width() * self.spec_height()
    }

    /// Whether a coordinate addresses a tile: strictly inside both dimensions.
    pub open spec fn spec_in_range(&self, c: FieldCoordinates) -> bool {
        c.0 < self.dimensions.0 && c.1 < self.dimensions.1
    }

    /// The row-major storage index of a coordinate.
    pub open spec fn spec_index_of(&self, c: FieldCoordinates) -> int {
        c.1 as int * self.spec_width() + c.0 as int
    }

    /// The state of the tile at an in-range coordinate.
    pub open spec fn state_at(&self, c: FieldCoordinates) -> TileState<Cf>
        recommends
            self.spec_in_range(c),
    {
        self.storage@[self.spec_index_of(c)].state
    }

    /// Whether the tile at integer coordinates exists and holds a mine;
    /// out-of-range coordinates hold no mine.
    pub open spec fn spec_mine_at(&self, x: int, y: int) -> bool {
        &&& 0 <= x < self.spec_width()
        &&& 0 <= y < self.spec_height()
        &&& self.storage@[y * self.spec_width() + x].state is Mine
    }

    /// 1 if the tile at integer coordinates exists and holds a mine, else 0.
    pub open spec fn mine_ind(&self, x: int, y: int) -> int {
        if self.spec_mine_at(x, y) {
            1
        } else {
            0
        }
    }

    /// The number of mines among the 8 surrounding tiles (the Moore
    /// neighborhood); the tile's own state is never part of the sum, and
    /// neighbors outside the field contribute nothing.
    pub open spec fn spec_neighbor_mines(&self, x: int, y: int) -> int {
        self.mine_ind(x - 1, y + 1) + self.mine_ind(x, y + 1) + self.mine_ind(x + 1, y + 1)
            + self.mine_ind(x - 1, y) + self.mine_ind(x + 1, y) + self.mine_ind(x - 1, y - 1)
            + self.mine_ind(x, y - 1) + self.mine_ind(x + 1, y - 1)
    }

    /// Whether the tile at integer coordinates exists and carries exactly the
    /// `Flagged` marker.
    pub open spec fn spec_flagged_at(&self, x: int, y: int) -> bool {
        &&& 0 <= x < self.spec_width()
        &&& 0 <= y < self.spec_height()
        &&& self.storage@[y * self.spec_width() + x].state.spec_is_flagged()
    }

    /// 1 if the tile at integer coordinates exists and is flagged, else 0.
    pub open spec fn flag_ind(&self, x: int, y: int) -> int {
        if self.spec_flagged_at(x, y) {
            1
        } else {
            0
        }
    }

    /// The number of flagged tiles among the 8 surrounding tiles.
    pub open spec fn spec_neighbor_flags(&self, x: int, y: int) -> int {
        self.flag_ind(x - 1, y + 1) + self.flag_ind(x, y + 1) + self.flag_ind(x + 1, y + 1)
            + self.flag_ind(x - 1, y) + self.flag_ind(x + 1, y) + self.flag_ind(x - 1, y - 1)
            + self.flag_ind(x, y - 1) + self.flag_ind(x + 1, y - 1)
    }

    /// The outcome of clicking an in-range tile: open tiles and mines resolve
    /// locally; a closed empty tile resolves by its neighboring mine count,
    /// zero meaning a clearing and anything else a number.
    pub open spec fn spec_peek(&self, c: FieldCoordinates) -> ClickOutcome
        recommends
            self.spec_in_range(c),
    {
        match self.state_at(c) {
            TileState::ClosedEmpty(_) => {
                if self.spec_neighbor_mines(c.0 as int, c.1 as int) == 0 {
                    ClickOutcome::OpenClearing
                } else {
                    ClickOutcome::OpenNumber(self.spec_neighbor_mines(c.0 as int, c.1 as int) as u8)
                }
            },
            TileState::OpenEmpty => ClickOutcome::OpenClearing,
            TileState::OpenNumber(_) => ClickOutcome::Chord,
            TileState::Mine(_) => ClickOutcome::Explosion,
        }
    }

    /// The backing storage as `open` leaves it after a click at `c`: a closed
    /// empty tile becomes `OpenEmpty` or `OpenNumber` according to its
    /// resolution, with its payload kept; every other tile, and every other
    /// click, changes nothing.
    pub open spec fn spec_opened_storage(&self, c: FieldCoordinates) -> Seq<Tile<Ct, Cf>>
        recommends
            self.wf(),
            self.spec_in_range(c),
    {
        match self.spec_peek(c) {
            ClickOutcome::OpenClearing => self.storage@.update(
                self.spec_index_of(c),
                Tile {
                    state: TileState::OpenEmpty,
                    payload: self.storage@[self.spec_index_of(c)].payload,
                },
            ),
            ClickOutcome::OpenNumber(n) => self.storage@.update(
                self.spec_index_of(c),
                Tile {
                    state: TileState::OpenNumber(n),
                    payload: self.storage@[self.spec_index_of(c)].payload,
                },
            ),
            _ => self.storage@,
        }
    }

    /// The state `open` gives the tile at `d`: a closed empty tile opens to
    /// `OpenEmpty` or `OpenNumber` according to its resolution; any other tile
    /// keeps its state.
    pub open spec fn spec_open_result(&self, d: FieldCoordinates) -> TileState<Cf>
        recommends
            self.spec_in_range(d),
    {
        match self.spec_peek(d) {
            ClickOutcome::OpenClearing => TileState::OpenEmpty,
            ClickOutcome::OpenNumber(n) => TileState::OpenNumber(n),
            _ => self.state_at(d),
        }
    }

    /// Whether a chord at `c` fires: the tile is an open number whose value
    /// equals the number of flagged neighbors exactly — neither an
    /// under-flagged nor an over-flagged tile chords.
    pub open spec fn spec_chord_fires(&self, c: FieldCoordinates) -> bool {
        &&& self.spec_in_range(c)
        &&& (self.state_at(c) matches TileState::OpenNumber(n) && self.spec_neighbor_flags(
            c.0 as int,
            c.1 as int,
        ) == n as int)
    }

    /// Whether the `i`-th chord neighbor of `c` lies on the field.
    pub open spec fn chord_target_ok(&self, c: FieldCoordinates, i: int) -> bool {
        let (x, y) = chord_neighbor(c, i);
        0 <= x < self.spec_width() && 0 <= y < self.spec_height()
    }

    /// The `i`-th chord neighbor of `c` as a coordinate.
    pub open spec fn chord_target(&self, c: FieldCoordinates, i: int) -> FieldCoordinates
        recommends
            self.chord_target_ok(c, i),
    {
        let (x, y) = chord_neighbor(c, i);
        (x as usize, y as usize)
    }

    /// Whether a firing chord at `c` opens the tile at `d`: `d` is one of the
    /// first `n` chord neighbors, lies on the field, and is not flagged.
    pub open spec fn chord_opens(&self, c: FieldCoordinates, d: FieldCoordinates, n: int) -> bool {
        &&& !self.state_at(d).spec_is_flagged()
        &&& exists|j: int|
            0 <= j < n && self.chord_target_ok(c, j) && #[trigger] self.chord_target(c, j) == d
    }

    /// The reported outcome of a chord at `c` for direction `i`: the click
    /// resolution of the neighbor when the chord fires and the neighbor is an
    /// unflagged tile on the field, and `Nothing` otherwise.
    pub open spec fn spec_chord_outcome(&self, c: FieldCoordinates, i: int) -> ClickOutcome {
        if self.spec_chord_fires(c) && self.chord_target_ok(c, i) && !self.state_at(
            self.chord_target(c, i),
        ).spec_is_flagged() {
            self.spec_peek(self.chord_target(c, i))
        } else {
            ClickOutcome::Nothing
        }
    }
}

/// The integer coordinates of the `i`-th of the 8 surrounding tiles of `c`, in
/// clockwise order starting from up-left; rows above have the larger row
/// index.
pub open spec fn chord_neighbor(c: FieldCoordinates, i: int) -> (int, int) {
    if i == 0 {
        (c.0 - 1, c.1 + 1)
    } else if i == 1 {
        (c.0 as int, c.1 + 1)
    } else if i == 2 {
        (c.0 + 1, c.1 + 1)
    } else if i == 3 {
        (c.0 + 1, c.1 as int)
    } else if i == 4 {
        (c.0 + 1, c.1 - 1)
    } else if i == 5 {
        (c.0 as int, c.1 - 1)
    } else if i == 6 {
        (c.0 - 1, c.1 - 1)
    } else {
        (c.0 - 1, c.1 as int)
    }
}

/// The neighbor-mine sum written out in the reflected enumeration order,
/// walking the 8 surrounding tiles backwards.
pub open spec fn spec_neighbor_mines_reflected<Ct, Cf>(f: &Field<Ct, Cf>, x: int, y: int) -> int {
    f.mine_ind(x + 1, y - 1) + f.mine_ind(x, y - 1) + f.mine_ind(x - 1, y - 1) + f.mine_ind(
        x + 1,
        y,
    ) + f.mine_ind(x - 1, y) + f.mine_ind(x + 1, y + 1) + f.mine_ind(x, y + 1) + f.mine_ind(
        x - 1,
        y + 1,
    )
}

/// Law: the neighboring-mine count is between 0 and 8 everywhere, and does not
/// depend on the order in which the 8 surrounding tiles are enumerated —
/// reflecting the enumeration gives the same sum.
pub proof fn lemma_neighbor_mines_range_and_order<Ct, Cf>(f: &Field<Ct, Cf>, x: int, y: int)
    ensures
        0 <= f.spec_neighbor_mines(x, y) <= 8,
        f.spec_neighbor_mines(x, y) == spec_neighbor_mines_reflected(f, x, y),
{
}

/// Law: the neighboring-mine count never counts the tile's own state. Two
/// fields of the same shape whose mines agree everywhere except possibly at
/// `c` itself count the same neighboring mines at `c`.
pub proof fn lemma_neighbor_mines_ignore_own_tile<Ct, Cf>(
    f1: &Field<Ct, Cf>,
    f2: &Field<Ct, Cf>,
    c: FieldCoordinates,
)
    requires
        f1.wf(),
        f2.dimensions == f1.dimensions,
        f2.storage@.len() == f1.storage@.len(),
        forall|x: int, y: int|
            !(x == c.0 as int && y == c.1 as int) ==> (#[trigger] f2.spec_mine_at(x, y)
                == f1.spec_mine_at(x, y)),
    ensures
        f2.spec_neighbor_mines(c.0 as int, c.1 as int) == f1.spec_neighbor_mines(
            c.0 as int,
            c.1 as int,
        ),
{
}

/// Law: `open` is idempotent on tiles that are already open. Opening an
/// `OpenEmpty` or `OpenNumber` tile leaves the whole field exactly as it was,
/// and the outcome it reports — `OpenClearing` for the former, `Chord` for the
/// latter — depends on the tile's state alone, so a repeated `open` returns
/// the same outcome again.
pub proof fn lemma_open_idempotent_on_open_tiles<Ct, Cf>(f: &Field<Ct, Cf>, c: FieldCoordinates)
    requires
        f.wf(),
        f.spec_in_range(c),
        f.state_at(c).spec_is_open(),
    ensures
        f.spec_opened_storage(c) == f.storage@,
        f.state_at(c) is OpenEmpty ==> f.spec_peek(c) == ClickOutcome::OpenClearing,
        f.state_at(c) is OpenNumber ==> f.spec_peek(c) == ClickOutcome::Chord,
{
    lemma_index_in_bounds(f.spec_width(), f.spec_height(), c.0 as int, c.1 as int);
    if f.state_at(c) is OpenEmpty {
        assert(f.spec_opened_storage(c) =~= f.storage@);
    }
}

/// Distinct chord directions name distinct tiles.
pub proof fn lemma_chord_targets_distinct(c: FieldCoordinates, i: int, j: int)
    requires
        0 <= i < 8,
        0 <= j < 8,
        i != j,
    ensures
        chord_neighbor(c, i) != chord_neighbor(c, j),
{
}

/// Whether the coordinate `c` appears among the recorded chords.
pub open spec fn rec_contains(r: Seq<RecursiveChordOutcome>, c: FieldCoordinates) -> bool {
    exists|k: int| 0 <= k < r.len() && (#[trigger] r[k]).0 == c
}

/// Whether the coordinate `c` appears among the recorded chords with an
/// outcome that exposed something.
pub open spec fn rec_nontrivial_contains(
    r: Seq<RecursiveChordOutcome>,
    c: FieldCoordinates,
) -> bool {
    exists|k: int| 0 <= k < r.len() && (#[trigger] r[k]).0 == c && !trivial_chord(r[k].1)
}

/// Whether `d` is one of the 8 surrounding tiles of `c` and lies on the field.
pub open spec fn names_neighbor<Ct, Cf>(
    f: &Field<Ct, Cf>,
    c: FieldCoordinates,
    d: FieldCoordinates,
) -> bool {
    exists|i: int|
        0 <= i < 8 && f.chord_target_ok(c, i) && #[trigger] f.chord_target(c, i) == d
}

/// Whether the `k`-th record descends from an earlier one: some earlier record
/// exposed something and has the `k`-th record's coordinate among its 8
/// on-field neighbors — the depth-first expansion rule.
pub open spec fn descends_from<Ct, Cf>(
    f: &Field<Ct, Cf>,
    r: Seq<RecursiveChordOutcome>,
    k: int,
) -> bool {
    exists|l: int|
        0 <= l < k && !trivial_chord((#[trigger] r[l]).1) && names_neighbor(f, r[l].0, r[k].0)
}

/// How one recorded chord advances the board: the recorded outcomes are
/// exactly the chord's outcomes on the board it ran on, and the board after is
/// the chord's exact pointwise effect on that board.
pub open spec fn chord_step<Ct, Cf>(
    before: Field<Ct, Cf>,
    rec: RecursiveChordOutcome,
    after: Field<Ct, Cf>,
) -> bool {
    &&& forall|i: int| 0 <= i < 8 ==> rec.1@[i] == before.spec_chord_outcome(rec.0, i)
    &&& after.dimensions == before.dimensions
    &&& after.storage@.len() == before.storage@.len()
    &&& forall|d: FieldCoordinates|
        #![trigger after.state_at(d)]
        before.spec_in_range(d) ==> after.state_at(d) == (if before.spec_chord_fires(rec.0)
            && before.chord_opens(rec.0, d, 8) {
            before.spec_open_result(d)
        } else {
            before.state_at(d)
        })
    &&& forall|k: int|
        0 <= k < before.storage@.len() ==> #[trigger] after.storage@[k].payload
            == before.storage@[k].payload
}

/// A replay of the recorded chords: a chain of board states in which each
/// consecutive pair is related by one record, in order. Because every step is
/// deterministic in the board before it, a replay pins every recorded outcome
/// and every intermediate board to the starting board.
pub open spec fn rc_replay<Ct, Cf>(
    r: Seq<RecursiveChordOutcome>,
    trace: Seq<Field<Ct, Cf>>,
) -> bool {
    &&& trace.len() == r.len() + 1
    &&& forall|k: int| 0 <= k < r.len() ==> chord_step(trace[k], #[trigger] r[k], trace[k + 1])
}

/// Extending a replay by one executed chord.
proof fn lemma_replay_extend<Ct, Cf>(
    r0: Seq<RecursiveChordOutcome>,
    rec: RecursiveChordOutcome,
    trace0: Seq<Field<Ct, Cf>>,
    f_now: Field<Ct, Cf>,
)
    requires
        rc_replay(r0, trace0),
        chord_step(trace0[trace0.len() - 1], rec, f_now),
    ensures
        rc_replay(r0.push(rec), trace0.push(f_now)),
{
    let r1 = r0.push(rec);
    let t1 = trace0.push(f_now);
    assert forall|k: int| 0 <= k < r1.len() implies chord_step(t1[k], #[trigger] r1[k], t1[k + 1]) by {
        if k < r0.len() {
            assert(r1[k] == r0[k]);
            assert(t1[k] == trace0[k]);
            assert(t1[k + 1] == trace0[k + 1]);
        } else {
            assert(r1[k] == rec);
            assert(t1[k] == trace0[trace0.len() - 1]);
            assert(t1[k + 1] == f_now);
        }
    }
}

/// How a field may evolve under a run of chords started on `f0`: the shape,
/// the mines, the flags and every payload are untouched, every recorded
/// coordinate is on the field and recorded once, the pending coordinates are
/// all recorded, and each tile either keeps its state or — being an unflagged
/// closed empty tile — opens to its click resolution.
pub open spec fn rc_evolution<Ct, Cf>(
    f0: &Field<Ct, Cf>,
    cur: &Field<Ct, Cf>,
    r: Seq<RecursiveChordOutcome>,
) -> bool {
    &&& cur.wf()
    &&& cur.dimensions == f0.dimensions
    &&& cur.storage@.len() == f0.storage@.len()
    &&& forall|x: int, y: int|
        #![trigger cur.spec_mine_at(x, y)]
        cur.spec_mine_at(x, y) == f0.spec_mine_at(x, y)
    &&& forall|x: int, y: int|
        #![trigger cur.spec_neighbor_mines(x, y)]
        cur.spec_neighbor_mines(x, y) == f0.spec_neighbor_mines(x, y)
    &&& forall|x: int, y: int|
        #![trigger cur.spec_flagged_at(x, y)]
        cur.spec_flagged_at(x, y) == f0.spec_flagged_at(x, y)
    &&& forall|k: int|
        0 <= k < f0.storage@.len() ==> #[trigger] cur.storage@[k].payload
            == f0.storage@[k].payload
    &&& forall|d: FieldCoordinates|
        #![trigger cur.state_at(d)]
        f0.spec_in_range(d) ==> (cur.state_at(d) == f0.state_at(d) || (f0.state_at(
            d,
        ) is ClosedEmpty && !f0.state_at(d).spec_is_flagged() && cur.state_at(d)
            == f0.spec_open_result(d)))
    &&& forall|k: int| 0 <= k < r.len() ==> f0.spec_in_range((#[trigger] r[k]).0)
    &&& forall|k: int, l: int| 0 <= k < l < r.len() ==> r[k].0 != r[l].0
}

/// The full bookkeeping invariant of the recursive chord driver: the evolution
/// above, a visited map that marks exactly the recorded coordinates, a pending
/// stack of distinct, already-recorded coordinates, and the closure that —
/// except for the pending tiles and the tile currently being expanded — every
/// recorded non-trivial chord already has all its on-field neighbors recorded.
spec fn rc_inv<Ct, Cf>(
    f0: &Field<Ct, Cf>,
    cur: &Field<Ct, Cf>,
    visited: Seq<bool>,
    r: Seq<RecursiveChordOutcome>,
    work: Seq<FieldCoordinates>,
    except: Option<FieldCoordinates>,
) -> bool {
    &&& f0.wf()
    &&& rc_evolution(f0, cur, r)
    &&& visited.len() == f0.storage@.len()
    &&& r.len() == count_true_prefix(visited, visited.len() as int)
    &&& r.len() <= visited.len()
    &&& forall|c: FieldCoordinates|
        #![trigger visited[f0.spec_index_of(c)]]
        #![trigger rec_contains(r, c)]
        f0.spec_in_range(c) ==> (visited[f0.spec_index_of(c)] <==> rec_contains(r, c))
    &&& forall|i: int| 0 <= i < work.len() ==> rec_nontrivial_contains(r, #[trigger] work[i])
    &&& forall|i: int, j: int| 0 <= i < j < work.len() ==> work[i] != work[j]
    &&& forall|k: int, i: int|
        #![trigger f0.chord_target(r[k].0, i)]
        (0 <= k < r.len() && 0 <= i < 8 && !trivial_chord(r[k].1) && !work.contains(r[k].0)
            && except != Some(r[k].0) && f0.chord_target_ok(r[k].0, i)) ==> rec_contains(
            r,
            f0.chord_target(r[k].0, i),
        )
    &&& forall|k: int| 0 < k < r.len() ==> #[trigger] descends_from(f0, r, k)
}

/// Whether every entry of a chord outcome is `Nothing`: such a chord exposed
/// nothing, and the driver does not descend past it.
pub open spec fn trivial_chord(o: ChordOutcome) -> bool {
    forall|i: int| 0 <= i < 8 ==> o@[i] == ClickOutcome::Nothing
}

/// Returns whether every entry of a chord outcome is `Nothing`.
fn chord_outcome_is_trivial(o: &ChordOutcome) -> (r: bool)
    ensures
        r == trivial_chord(*o),
{
    let mut i: usize = 0;
    while i < 8
        invariant
            i <= 8,
            forall|j: int| 0 <= j < i ==> o@[j] == ClickOutcome::Nothing,
        decreases 8 - i,
    {
        if !(matches!(o[i], ClickOutcome::Nothing)) {
            return false;
        }
        i += 1;
    }
    true
}

/// One driver step: if the tile at `d` has not been chorded yet, chord it,
/// record the outcome, and queue it for expansion when the chord exposed
/// anything.
fn rc_consider<Ct, Cf>(
    field: &mut Field<Ct, Cf>,
    Ghost(f0): Ghost<Field<Ct, Cf>>,
    Ghost(except): Ghost<Option<FieldCoordinates>>,
    d: FieldCoordinates,
    visited: &mut Vec<bool>,
    results: &mut Vec<RecursiveChordOutcome>,
    work: &mut Vec<FieldCoordinates>,
)
    requires
        f0.spec_in_range(d),
        rc_inv(&f0, old(field), old(visited)@, old(results)@, old(work)@, except),
        except matches Some(c) ==> rec_nontrivial_contains(old(results)@, c) && names_neighbor(
            &f0,
            c,
            d,
        ),
        except is None ==> old(results)@.len() == 0,
    ensures
        rc_inv(&f0, final(field), final(visited)@, final(results)@, final(work)@, except),
        final(results)@.len() >= old(results)@.len(),
        forall|k: int| 0 <= k < old(results)@.len() ==> final(results)@[k] == old(results)@[k],
        forall|e: FieldCoordinates| #[trigger]
            rec_contains(old(results)@, e) ==> rec_contains(final(results)@, e),
        forall|e: FieldCoordinates| #[trigger]
            rec_nontrivial_contains(old(results)@, e) ==> rec_nontrivial_contains(
                final(results)@,
                e,
            ),
        rec_contains(final(results)@, d),
        !old(visited)@[f0.spec_index_of(d)] ==> final(results)@.len() == old(results)@.len() + 1
            && final(results)@.last().0 == d && (forall|i: int|
            0 <= i < 8 ==> final(results)@.last().1@[i] == old(field).spec_chord_outcome(d, i))
            && chord_step(*old(field), final(results)@.last(), *final(field)),
        old(visited)@[f0.spec_index_of(d)] ==> *final(field) == *old(field) && final(results)@
            == old(results)@ && final(work)@ == old(work)@,
        2 * (f0.storage@.len() - final(results)@.len()) + final(work)@.len() <= 2 * (
        f0.storage@.len() - old(results)@.len()) + old(work)@.len(),
{
    let width = field.dimensions.0;
    let height = field.dimensions.1;
    let area = field.storage.len();
    proof {
        lemma_index_in_bounds(width as int, height as int, d.0 as int, d.1 as int);
    }
    let di = d.1 * width + d.0;
    if !visited[di] {
        proof {
            assert(!rec_contains(results@, d));
            lemma_count_true_update(visited@, di as int, visited@.len() as int);
            lemma_count_true_le(visited@.update(di as int, true), visited@.len() as int);
        }
        visited[di] = true;
        let ghost prev = *field;
        let outcome = field.chord(d);
        results.push((d, outcome));
        if !chord_outcome_is_trivial(&outcome) {
            work.push(d);
        }
        proof {
            let nr = results@;
            assert(nr.last().0 == d);
            // The chord read the same flags and resolutions as `f0` holds, so
            // each state it wrote matches `f0`'s own resolution.
            assert forall|e: FieldCoordinates| f0.spec_in_range(e) implies (field.state_at(e)
                == f0.state_at(e) || (f0.state_at(e) is ClosedEmpty && !f0.state_at(
                e,
            ).spec_is_flagged() && field.state_at(e) == f0.spec_open_result(e))) by {
                if field.state_at(e) != prev.state_at(e) {
                    assert(prev.spec_chord_fires(d) && prev.chord_opens(d, e, 8));
                    assert(!prev.state_at(e).spec_is_flagged());
                    assert(field.state_at(e) == prev.spec_open_result(e));
                    if prev.state_at(e) == f0.state_at(e) {
                        assert(prev.spec_neighbor_mines(e.0 as int, e.1 as int)
                            == f0.spec_neighbor_mines(e.0 as int, e.1 as int));
                        assert(prev.spec_peek(e) == f0.spec_peek(e));
                        assert(prev.spec_open_result(e) == f0.spec_open_result(e));
                        assert(!f0.state_at(e).spec_is_flagged());
                        if !(f0.state_at(e) is ClosedEmpty) {
                            assert(field.state_at(e) == f0.state_at(e));
                        }
                    } else {
                        // Already opened earlier in the run: a further chord
                        // leaves an open tile as it is.
                        assert(f0.state_at(e) is ClosedEmpty && prev.state_at(e)
                            == f0.spec_open_result(e));
                        assert(prev.state_at(e) is OpenEmpty || prev.state_at(e) is OpenNumber);
                        assert(prev.spec_open_result(e) == prev.state_at(e));
                    }
                }
            }
            assert forall|e: FieldCoordinates| f0.spec_in_range(e) implies (
            visited@[f0.spec_index_of(e)] <==> rec_contains(nr, e)) by {
                lemma_index_in_bounds(width as int, height as int, e.0 as int, e.1 as int);
                if f0.spec_index_of(e) == di as int {
                    lemma_index_injective(
                        width as int,
                        height as int,
                        e.0 as int,
                        e.1 as int,
                        d.0 as int,
                        d.1 as int,
                    );
                    assert(e == d);
                    assert((nr[nr.len() - 1]).0 == d);
                    assert(rec_contains(nr, d));
                } else {
                    if rec_contains(nr, e) {
                        let k = choose|k: int| 0 <= k < nr.len() && (#[trigger] nr[k]).0 == e;
                        assert(k < nr.len() - 1);
                        assert(rec_contains(old(results)@, e));
                    } else {
                        if rec_contains(old(results)@, e) {
                            let k = choose|k: int|
                                0 <= k < old(results)@.len() && (#[trigger] old(results)@[k]).0
                                    == e;
                            assert((nr[k]).0 == e);
                            assert(rec_contains(nr, e));
                        }
                    }
                }
            }
            assert forall|k: int, l: int| 0 <= k < l < nr.len() implies nr[k].0 != nr[l].0 by {
                if l < nr.len() - 1 {
                    assert(nr[k] == old(results)@[k]);
                    assert(nr[l] == old(results)@[l]);
                } else {
                    assert(nr[l].0 == d);
                    assert((old(results)@[k]).0 == nr[k].0);
                    assert(rec_contains(old(results)@, nr[k].0));
                }
            }
            assert forall|i2: int| 0 <= i2 < work@.len() implies rec_nontrivial_contains(
                nr,
                #[trigger] work@[i2],
            ) by {
                if i2 < old(work)@.len() {
                    assert(work@[i2] == old(work)@[i2]);
                    assert(rec_nontrivial_contains(old(results)@, old(work)@[i2]));
                    let k = choose|k: int|
                        0 <= k < old(results)@.len() && (#[trigger] old(results)@[k]).0 == old(
                            work,
                        )@[i2] && !trivial_chord(old(results)@[k].1);
                    assert((nr[k]).0 == work@[i2] && !trivial_chord(nr[k].1));
                } else {
                    assert(work@[i2] == d);
                    assert((nr[nr.len() - 1]).0 == d && !trivial_chord(nr[nr.len() - 1].1));
                }
            }
            assert forall|i2: int, j2: int| 0 <= i2 < j2 < work@.len() implies work@[i2]
                != work@[j2] by {
                if j2 < old(work)@.len() {
                    assert(work@[i2] == old(work)@[i2]);
                    assert(work@[j2] == old(work)@[j2]);
                } else if work@.len() > old(work)@.len() {
                    assert(work@[j2] == d);
                    assert(work@[i2] == old(work)@[i2]);
                    assert(rec_contains(old(results)@, old(work)@[i2]));
                }
            }
            assert forall|e: FieldCoordinates| #[trigger]
                rec_contains(old(results)@, e) implies rec_contains(nr, e) by {
                let w = choose|w: int|
                    0 <= w < old(results)@.len() && (#[trigger] old(results)@[w]).0 == e;
                assert((nr[w]).0 == e);
            }
            assert forall|e: FieldCoordinates| #[trigger]
                rec_nontrivial_contains(old(results)@, e) implies rec_nontrivial_contains(
                nr,
                e,
            ) by {
                let w = choose|w: int|
                    0 <= w < old(results)@.len() && (#[trigger] old(results)@[w]).0 == e
                        && !trivial_chord(old(results)@[w].1);
                assert((nr[w]).0 == e && !trivial_chord(nr[w].1));
            }
            assert(rec_contains(nr, d));
            // The executed chord read and wrote exactly what its contract
            // says, so the appended record replays against the entry board.
            assert(chord_step(prev, nr.last(), *field));
            // The new record descends from the expanded tile named by the
            // caller; older records keep their witnesses.
            assert forall|k: int| 0 < k < nr.len() implies #[trigger] descends_from(
                &f0,
                nr,
                k,
            ) by {
                if k < nr.len() - 1 {
                    assert(descends_from(&f0, old(results)@, k));
                    let l = choose|l: int|
                        0 <= l < k && !trivial_chord((#[trigger] old(results)@[l]).1)
                            && names_neighbor(&f0, old(results)@[l].0, old(results)@[k].0);
                    assert(nr[l] == old(results)@[l]);
                    assert(nr[k] == old(results)@[k]);
                    assert(!trivial_chord(nr[l].1) && names_neighbor(&f0, nr[l].0, nr[k].0));
                } else {
                    match except {
                        Some(c) => {
                            let l = choose|l: int|
                                0 <= l < old(results)@.len() && (#[trigger] old(results)@[l]).0
                                    == c && !trivial_chord(old(results)@[l].1);
                            assert(nr[l] == old(results)@[l]);
                            assert(!trivial_chord(nr[l].1) && names_neighbor(
                                &f0,
                                nr[l].0,
                                nr[k].0,
                            ));
                        },
                        None => {
                            assert(k == 0);
                        },
                    }
                }
            }
            assert forall|e: FieldCoordinates| old(work)@.contains(e) implies work@.contains(
                e,
            ) by {
                let w = choose|w: int| 0 <= w < old(work)@.len() && old(work)@[w] == e;
                assert(work@[w] == e);
            }
            assert forall|k: int, i: int|
                (0 <= k < nr.len() && 0 <= i < 8 && !trivial_chord(nr[k].1) && !work@.contains(
                    nr[k].0,
                ) && except != Some(nr[k].0) && f0.chord_target_ok(nr[k].0, i)) implies
                rec_contains(nr, #[trigger] f0.chord_target(nr[k].0, i)) by {
                if k < nr.len() - 1 {
                    assert(nr[k] == old(results)@[k]);
                    assert(!old(work)@.contains(nr[k].0));
                    assert(f0.chord_target(old(results)@[k].0, i) == f0.chord_target(nr[k].0, i));
                    assert(rec_contains(old(results)@, f0.chord_target(nr[k].0, i)));
                } else {
                    // The new record: it is pending unless its chord was
                    // trivial, and either way the closure holds of it.
                    assert(nr[k].0 == d);
                    assert(nr[k].1 == outcome);
                    assert(work@[work@.len() - 1] == d);
                    assert(work@.contains(d));
                }
            }
        }
    } else {
        proof {
            assert(rec_contains(results@, d));
        }
    }
}

/// One expansion round of the recursive chord driver: pop a pending tile and
/// chord each of its 8 on-field neighbors that has not been chorded yet,
/// extending the replay chain by every chord executed.
#[verifier::rlimit(100)]
#[verifier::spinoff_prover]
fn rc_expand<Ct, Cf>(
    field: &mut Field<Ct, Cf>,
    Ghost(f0): Ghost<Field<Ct, Cf>>,
    visited: &mut Vec<bool>,
    results: &mut Vec<RecursiveChordOutcome>,
    work: &mut Vec<FieldCoordinates>,
    Ghost(trace_in): Ghost<Seq<Field<Ct, Cf>>>,
) -> (trace_out: Ghost<Seq<Field<Ct, Cf>>>)
    requires
        old(work)@.len() > 0,
        rc_inv(
            &f0,
            old(field),
            old(visited)@,
            old(results)@,
            old(work)@,
            None::<FieldCoordinates>,
        ),
        rc_replay(old(results)@, trace_in),
        trace_in[trace_in.len() - 1] == *old(field),
    ensures
        rc_inv(
            &f0,
            final(field),
            final(visited)@,
            final(results)@,
            final(work)@,
            None::<FieldCoordinates>,
        ),
        rc_replay(final(results)@, trace_out@),
        trace_out@[0] == trace_in[0],
        trace_out@[trace_out@.len() - 1] == *final(field),
        final(results)@.len() >= old(results)@.len(),
        forall|k: int| 0 <= k < old(results)@.len() ==> final(results)@[k] == old(results)@[k],
        2 * (f0.storage@.len() - final(results)@.len()) + final(work)@.len() < 2 * (
        f0.storage@.len() - old(results)@.len()) + old(work)@.len(),
{
    let ghost mut trace: Seq<Field<Ct, Cf>> = trace_in;
    let ghost prev_work = work@;
    let c = match work.pop() {
        Some(c) => c,
        None => vstd::pervasive::unreached(),
    };
    proof {
        assert(prev_work[prev_work.len() - 1] == c);
        assert(rec_nontrivial_contains(results@, c));
        let k = choose|k: int|
            0 <= k < results@.len() && (#[trigger] results@[k]).0 == c && !trivial_chord(
                results@[k].1,
            );
        assert(rec_contains(results@, c));
        assert(f0.spec_in_range(c));
        // After the pop, only `c` itself can have left the pending stack, so
        // the closure may newly exempt `c` alone.
        assert forall|a: FieldCoordinates| prev_work.contains(a) && a != c implies work@.contains(
            a,
        ) by {
            let w = choose|w: int| 0 <= w < prev_work.len() && prev_work[w] == a;
            assert(w < prev_work.len() - 1);
            assert(work@[w] == a);
        }
        assert forall|i2: int| 0 <= i2 < work@.len() implies rec_nontrivial_contains(
            results@,
            #[trigger] work@[i2],
        ) by {
            assert(work@[i2] == prev_work[i2]);
        }
        assert forall|k2: int, i2: int|
            (0 <= k2 < results@.len() && 0 <= i2 < 8 && !trivial_chord(results@[k2].1)
                && !work@.contains(results@[k2].0) && Some(c) != Some(results@[k2].0)
                && f0.chord_target_ok(results@[k2].0, i2)) implies rec_contains(
            results@,
            #[trigger] f0.chord_target(results@[k2].0, i2),
        ) by {
            if prev_work.contains(results@[k2].0) {
                assert(work@.contains(results@[k2].0));
            }
        }
        assert(rc_inv(&f0, field, visited@, results@, work@, Some(c)));
    }
    let ghost r_pop = results@;
    let ghost m_pop = 2 * (f0.storage@.len() - results@.len()) + work@.len();
    let mut i: usize = 0;
    while i < 8
        invariant
            i <= 8,
            f0.wf(),
            f0.spec_in_range(c),
            rec_nontrivial_contains(results@, c),
            rc_inv(&f0, field, visited@, results@, work@, Some(c)),
            rc_replay(results@, trace),
            trace[0] == trace_in[0],
            trace[trace.len() - 1] == *field,
            results@.len() >= r_pop.len(),
            forall|k: int| 0 <= k < r_pop.len() ==> results@[k] == r_pop[k],
            forall|j: int|
                0 <= j < i && f0.chord_target_ok(c, j) ==> rec_contains(
                    results@,
                    #[trigger] f0.chord_target(c, j),
                ),
            2 * (f0.storage@.len() - results@.len()) + work@.len() <= m_pop,
        decreases 8 - i,
    {
        match field.chord_target_exec(c, i) {
            Some(d) => {
                proof {
                    assert(f0.chord_target_ok(c, i as int) && f0.chord_target(c, i as int) == d);
                    assert(names_neighbor(&f0, c, d));
                }
                let ghost pre_r = results@;
                let ghost pre_f = *field;
                rc_consider(field, Ghost(f0), Ghost(Some(c)), d, visited, results, work);
                proof {
                    if results@.len() > pre_r.len() {
                        assert(results@ =~= pre_r.push(results@[results@.len() - 1]));
                        lemma_replay_extend(pre_r, results@[results@.len() - 1], trace, *field);
                        trace = trace.push(*field);
                    } else {
                        assert(*field == pre_f);
                    }
                }
            },
            None => {
                proof {
                    assert(!f0.chord_target_ok(c, i as int));
                }
            },
        }
        i += 1;
    }
    proof {
        // Every on-field neighbor of the expanded tile is recorded now, so the
        // closure holds again without exempting it.
        assert forall|k: int, i2: int|
            (0 <= k < results@.len() && 0 <= i2 < 8 && !trivial_chord(results@[k].1)
                && !work@.contains(results@[k].0) && f0.chord_target_ok(results@[k].0, i2))
            implies rec_contains(results@, #[trigger] f0.chord_target(results@[k].0, i2)) by {
            if results@[k].0 == c {
                assert(rec_contains(results@, f0.chord_target(c, i2)));
            }
        }
        assert(rc_inv(&f0, field, visited@, results@, work@, None::<FieldCoordinates>));
    }
    Ghost(trace)
}



/// What `open` leaves untouched: opening one tile changes that tile's state
/// alone, never adds or removes a mine or a flag, and therefore never changes
/// a neighbor count or the click resolution of any other tile.
pub proof fn lemma_open_preserves_rest<Ct, Cf>(f1: Field<Ct, Cf>, f2: Field<Ct, Cf>, a: FieldCoordinates)
    requires
        f1.wf(),
        f1.spec_in_range(a),
        f2.dimensions == f1.dimensions,
        f2.storage@ == f1.spec_opened_storage(a),
    ensures
        f2.wf(),
        f2.storage@.len() == f1.storage@.len(),
        f2.state_at(a) == f1.spec_open_result(a),
        forall|d: FieldCoordinates|
            #![trigger f2.state_at(d)]
            f1.spec_in_range(d) && d != a ==> f2.state_at(d) == f1.state_at(d),
        forall|x: int, y: int|
            #![trigger f2.spec_mine_at(x, y)]
            f2.spec_mine_at(x, y) == f1.spec_mine_at(x, y),
        forall|x: int, y: int|
            #![trigger f2.spec_neighbor_mines(x, y)]
            f2.spec_neighbor_mines(x, y) == f1.spec_neighbor_mines(x, y),
        !f1.state_at(a).spec_is_flagged() ==> forall|x: int, y: int|
            #![trigger f2.spec_flagged_at(x, y)]
            f2.spec_flagged_at(x, y) == f1.spec_flagged_at(x, y),
        forall|d: FieldCoordinates|
            #![trigger f2.spec_peek(d)]
            f1.spec_in_range(d) && d != a ==> f2.spec_peek(d) == f1.spec_peek(d),
        forall|k: int|
            0 <= k < f1.storage@.len() ==> #[trigger] f2.storage@[k].payload
                == f1.storage@[k].payload,
{
    let w = f1.spec_width();
    let h = f1.spec_height();
    let ai = f1.spec_index_of(a);
    lemma_index_in_bounds(w, h, a.0 as int, a.1 as int);
    assert forall|d: FieldCoordinates| f1.spec_in_range(d) && d != a implies #[trigger] f2.state_at(
        d,
    ) == f1.state_at(d) by {
        lemma_index_in_bounds(w, h, d.0 as int, d.1 as int);
        if f1.spec_index_of(d) == ai {
            lemma_index_injective(w, h, d.0 as int, d.1 as int, a.0 as int, a.1 as int);
        }
    }
    assert forall|x: int, y: int| #[trigger] f2.spec_mine_at(x, y) == f1.spec_mine_at(x, y) by {
        if 0 <= x < w && 0 <= y < h {
            lemma_index_in_bounds(w, h, x, y);
            if y * w + x == ai {
                lemma_index_injective(w, h, x, y, a.0 as int, a.1 as int);
            }
        }
    }
    assert forall|x: int, y: int| !f1.state_at(a).spec_is_flagged() implies #[trigger] f2.spec_flagged_at(
        x,
        y,
    ) == f1.spec_flagged_at(x, y) by {
        if 0 <= x < w && 0 <= y < h {
            lemma_index_in_bounds(w, h, x, y);
            if y * w + x == ai {
                lemma_index_injective(w, h, x, y, a.0 as int, a.1 as int);
            }
        }
    }
    assert forall|d: FieldCoordinates| f1.spec_in_range(d) && d != a implies #[trigger] f2.spec_peek(
        d,
    ) == f1.spec_peek(d) by {
        assert(f2.state_at(d) == f1.state_at(d));
        assert(f2.spec_neighbor_mines(d.0 as int, d.1 as int) == f1.spec_neighbor_mines(
            d.0 as int,
            d.1 as int,
        ));
    }
}

/// The number of open tiles among the first `n` entries of a tile sequence.
pub open spec fn count_open_prefix<Ct, Cf>(s: Seq<Tile<Ct, Cf>>, n: int) -> int
    decreases n,
{
    if n <= 0 {
        0
    } else {
        count_open_prefix(s, n - 1) + if s[n - 1].state.spec_is_open() {
            1int
        } else {
            0int
        }
    }
}

/// The number of closed tiles (closed empty or mine) among the first `n`
/// entries of a tile sequence.
pub open spec fn count_closed_prefix<Ct, Cf>(s: Seq<Tile<Ct, Cf>>, n: int) -> int
    decreases n,
{
    if n <= 0 {
        0
    } else {
        count_closed_prefix(s, n - 1) + if s[n - 1].state.spec_is_closed() {
            1int
        } else {
            0int
        }
    }
}

/// The number of tiles that still have to be opened to win (closed empty
/// tiles) among the first `n` entries of a tile sequence.
pub open spec fn count_required_prefix<Ct, Cf>(s: Seq<Tile<Ct, Cf>>, n: int) -> int
    decreases n,
{
    if n <= 0 {
        0
    } else {
        count_required_prefix(s, n - 1) + if s[n - 1].state.spec_is_required_to_open() {
            1int
        } else {
            0int
        }
    }
}

/// Bounds for a row-major index: an in-range coordinate stays inside the
/// backing storage.
pub proof fn lemma_index_in_bounds(w: int, h: int, x: int, y: int)
    by (nonlinear_arith)
    requires
        0 <= x < w,
        0 <= y < h,
    ensures
        0 <= y * w + x < w * h,
{
}

/// Injectivity of the row-major index: distinct in-range coordinates occupy
/// distinct storage slots.
pub proof fn lemma_index_injective(w: int, h: int, x1: int, y1: int, x2: int, y2: int)
    by (nonlinear_arith)
    requires
        0 <= x1 < w,
        0 <= y1 < h,
        0 <= x2 < w,
        0 <= y2 < h,
        y1 * w + x1 == y2 * w + x2,
    ensures
        x1 == x2 && y1 == y2,
{
}

impl<Ct: Default, Cf> Field<Ct, Cf> {
    /// Creates a field of the given dimensions in which every tile is closed,
    /// empty and unflagged.
    pub fn empty(dimensions: FieldDimensions) -> (r: Self)
        requires
            dimensions.0 >= 1,
            dimensions.1 >= 1,
            dimensions.0 * dimensions.1 <= usize::MAX,
        ensures
            r.wf(),
            r.dimensions == dimensions,
            forall|i: int|
                0 <= i < r.storage@.len() ==> r.storage@[i].state == TileState::<
                    Cf,
                >::ClosedEmpty(Flag::NotFlagged),
    {
        let width = dimensions.0;
        let height = dimensions.1;
        let area = width * height;
        let mut storage: Vec<Tile<Ct, Cf>> = Vec::with_capacity(area);
        let mut i: usize = 0;
        while i < area
            invariant
                i <= area,
                storage@.len() == i,
                forall|j: int|
                    0 <= j < i ==> storage@[j].state == TileState::<Cf>::ClosedEmpty(
                        Flag::NotFlagged,
                    ),
            decreases area - i,
        {
            storage.push(Tile::default());
            i = i + 1;
        }
        Field { dimensions, storage }
    }
}

impl<Ct, Cf> Field<Ct, Cf> {
    /// Creates a field with the given dimensions from a vector of tiles in
    /// row-major order, refusing a zero dimension or a vector whose length is
    /// not exactly `width * height`.
    pub fn from_dimensions_and_storage(dimensions: FieldDimensions, storage: Vec<Tile<Ct, Cf>>) -> (r:
        Option<Self>)
        ensures
            match r {
                Some(f) => {
                    &&& f.wf()
                    &&& f.dimensions == dimensions
                    &&& f.storage@ == storage@
                    &&& storage@.len() == dimensions.0 * dimensions.1
                },
                None => dimensions.0 == 0 || dimensions.1 == 0 || storage@.len()
                    != dimensions.0 * dimensions.1,
            },
    {
        let width = dimensions.0;
        let height = dimensions.1;
        let len = storage.len();
        if width == 0 || height == 0 {
            return None;
        }
        match width.checked_mul(height) {
            Some(area) => {
                if len == area {
                    Some(Field { dimensions, storage })
                } else {
                    None
                }
            },
            None => {
                // The requested area exceeds the address space, so no vector
                // can have the matching length.
                assert(len < dimensions.0 * dimensions.1);
                None
            },
        }
    }

    /// Returns the width and height of the field.
    pub fn dimensions(&self) -> (r: FieldDimensions)
        ensures
            r == self.dimensions,
    {
        self.dimensions
    }

    /// Returns the tile at the given column and row, or `None` if the
    /// coordinate is out of range; never panics.
    pub fn get(&self, coordinates: FieldCoordinates) -> (r: Option<&Tile<Ct, Cf>>)
        requires
            self.wf(),
        ensures
            match r {
                Some(t) => self.spec_in_range(coordinates) && *t == self.storage@[self.spec_index_of(
                    coordinates,
                )],
                None => !self.spec_in_range(coordinates),
            },
    {
        let x = coordinates.0;
        let y = coordinates.1;
        let width = self.dimensions.0;
        let height = self.dimensions.1;
        if x < width && y < height {
            let area = self.storage.len();
            proof {
                lemma_index_in_bounds(width as int, height as int, x as int, y as int);
            }
            Some(&self.storage[y * width + x])
        } else {
            None
        }
    }

    /// Returns a mutable reference to the tile at the given column and row, or
    /// `None` if the coordinate is out of range; never panics. The caller may
    /// assign the tile's state or flag through the reference; the grid's shape
    /// is unaffected.
    pub fn get_mut(&mut self, coordinates: FieldCoordinates) -> (r: Option<&mut Tile<Ct, Cf>>)
        requires
            old(self).wf(),
        ensures
            match r {
                Some(t) => {
                    &&& old(self).spec_in_range(coordinates)
                    &&& *t == old(self).storage@[old(self).spec_index_of(coordinates)]
                    &&& final(self).dimensions == old(self).dimensions
                    &&& final(self).storage@ == old(self).storage@.update(
                        old(self).spec_index_of(coordinates),
                        *final(t),
                    )
                },
                None => !old(self).spec_in_range(coordinates) && *final(self) == *old(self),
            },
    {
        let x = coordinates.0;
        let y = coordinates.1;
        let width = self.dimensions.0;
        let height = self.dimensions.1;
        if x < width && y < height {
            let area = self.storage.len();
            proof {
                lemma_index_in_bounds(width as int, height as int, x as int, y as int);
            }
            Some(&mut self.storage[y * width + x])
        } else {
            None
        }
    }
}

impl<Ct, Cf> Field<Ct, Cf> {
    /// Whether the tile at `[x, y]` exists and holds a mine; out-of-range
    /// coordinates do not.
    fn mine_at(&self, x: usize, y: usize) -> (r: bool)
        requires
            self.wf(),
        ensures
            r == self.spec_mine_at(x as int, y as int),
    {
        let width = self.dimensions.0;
        let height = self.dimensions.1;
        if x < width && y < height {
            let area = self.storage.len();
            proof {
                lemma_index_in_bounds(width as int, height as int, x as int, y as int);
            }
            self.storage[y * width + x].state.is_mine()
        } else {
            false
        }
    }

    /// Whether the tile at `[x, y]` exists and carries exactly the `Flagged`
    /// marker; out-of-range coordinates do not.
    fn flagged_at(&self, x: usize, y: usize) -> (r: bool)
        requires
            self.wf(),
        ensures
            r == self.spec_flagged_at(x as int, y as int),
    {
        let width = self.dimensions.0;
        let height = self.dimensions.1;
        if x < width && y < height {
            let area = self.storage.len();
            proof {
                lemma_index_in_bounds(width as int, height as int, x as int, y as int);
            }
            self.storage[y * width + x].state.is_flagged()
        } else {
            false
        }
    }

    /// Detects whether a location holds a mine, or `None` if it is out of
    /// range.
    pub fn is_mine(&self, location: FieldCoordinates) -> (r: Option<bool>)
        requires
            self.wf(),
        ensures
            r == if self.spec_in_range(location) {
                Some(self.state_at(location) is Mine)
            } else {
                None::<bool>
            },
    {
        if location.0 < self.dimensions.0 && location.1 < self.dimensions.1 {
            Some(self.mine_at(location.0, location.1))
        } else {
            None
        }
    }

    /// Counts the neighboring mines around a location: all 8 directly or
    /// diagonally adjacent tiles count, each bounds-checked on its own, and the
    /// tile at the location itself is never counted.
    pub fn count_neighboring_mines(&self, location: FieldCoordinates) -> (r: u8)
        requires
            self.wf(),
        ensures
            r as int == self.spec_neighbor_mines(location.0 as int, location.1 as int),
            r <= 8,
    {
        let x = location.0;
        let y = location.1;
        let width = self.dimensions.0;
        let height = self.dimensions.1;
        let mut count: u8 = 0;
        if y < height {
            // The row above exists only when y + 1 stays below the height;
            // the guard also keeps y + 1 from overflowing.
            if x >= 1 && self.mine_at(x - 1, y + 1) {
                count += 1;
            }
            if self.mine_at(x, y + 1) {
                count += 1;
            }
            if x < width && self.mine_at(x + 1, y + 1) {
                count += 1;
            }
        }
        if x >= 1 && self.mine_at(x - 1, y) {
            count += 1;
        }
        if x < width && self.mine_at(x + 1, y) {
            count += 1;
        }
        if y >= 1 {
            if x >= 1 && self.mine_at(x - 1, y - 1) {
                count += 1;
            }
            if self.mine_at(x, y - 1) {
                count += 1;
            }
            if x < width && self.mine_at(x + 1, y - 1) {
                count += 1;
            }
        }
        count
    }

    /// Counts the flagged tiles among the 8 neighbors of a location; only the
    /// exact `Flagged` marker counts, a custom marker does not.
    pub fn count_neighboring_flags(&self, location: FieldCoordinates) -> (r: u8)
        requires
            self.wf(),
        ensures
            r as int == self.spec_neighbor_flags(location.0 as int, location.1 as int),
            r <= 8,
    {
        let x = location.0;
        let y = location.1;
        let width = self.dimensions.0;
        let height = self.dimensions.1;
        let mut count: u8 = 0;
        if y < height {
            if x >= 1 && self.flagged_at(x - 1, y + 1) {
                count += 1;
            }
            if self.flagged_at(x, y + 1) {
                count += 1;
            }
            if x < width && self.flagged_at(x + 1, y + 1) {
                count += 1;
            }
        }
        if x >= 1 && self.flagged_at(x - 1, y) {
            count += 1;
        }
        if x < width && self.flagged_at(x + 1, y) {
            count += 1;
        }
        if y >= 1 {
            if x >= 1 && self.flagged_at(x - 1, y - 1) {
                count += 1;
            }
            if self.flagged_at(x, y - 1) {
                count += 1;
            }
            if x < width && self.flagged_at(x + 1, y - 1) {
                count += 1;
            }
        }
        count
    }

    /// Returns the outcome of clicking the given tile without affecting the
    /// field, or `None` if the coordinate is out of range.
    pub fn peek(&self, coordinates: FieldCoordinates) -> (r: Option<ClickOutcome>)
        requires
            self.wf(),
        ensures
            r == if self.spec_in_range(coordinates) {
                Some(self.spec_peek(coordinates))
            } else {
                None::<ClickOutcome>
            },
    {
        match self.get(coordinates) {
            Some(tile) => match tile.state.peek_local() {
                Some(outcome) => Some(outcome),
                None => {
                    let neighbors = self.count_neighboring_mines(coordinates);
                    if neighbors > 0 {
                        Some(ClickOutcome::OpenNumber(neighbors))
                    } else {
                        Some(ClickOutcome::OpenClearing)
                    }
                },
            },
            None => None,
        }
    }

    /// Opens exactly one tile and returns the outcome of clicking it. A closed
    /// empty tile becomes `OpenEmpty` or `OpenNumber` according to its
    /// resolution; flags, mines and already-open tiles are left untouched, and
    /// no cascade into neighbors happens here.
    pub fn open(&mut self, coordinates: FieldCoordinates) -> (r: Option<ClickOutcome>)
        requires
            old(self).wf(),
        ensures
            final(self).wf(),
            final(self).dimensions == old(self).dimensions,
            r == if old(self).spec_in_range(coordinates) {
                Some(old(self).spec_peek(coordinates))
            } else {
                None::<ClickOutcome>
            },
            old(self).spec_in_range(coordinates) ==> final(self).storage@ == old(
                self,
            ).spec_opened_storage(coordinates),
            !old(self).spec_in_range(coordinates) ==> *final(self) == *old(self),
    {
        let x = coordinates.0;
        let y = coordinates.1;
        let width = self.dimensions.0;
        let height = self.dimensions.1;
        if x < width && y < height {
            let area = self.storage.len();
            proof {
                lemma_index_in_bounds(width as int, height as int, x as int, y as int);
            }
            let outcome = match self.peek(coordinates) {
                Some(o) => o,
                None => vstd::pervasive::unreached(),
            };
            match outcome {
                ClickOutcome::OpenClearing => {
                    self.storage[y * width + x].state = TileState::OpenEmpty;
                },
                ClickOutcome::OpenNumber(num) => {
                    self.storage[y * width + x].state = TileState::OpenNumber(num);
                },
                _ => {},
            }
            Some(outcome)
        } else {
            None
        }
    }

    /// Returns the number of tiles that have been opened.
    pub fn count_open_tiles(&self) -> (r: usize)
        requires
            self.wf(),
        ensures
            r as int == count_open_prefix(self.storage@, self.storage@.len() as int),
    {
        let len = self.storage.len();
        let mut count: usize = 0;
        let mut i: usize = 0;
        while i < len
            invariant
                i <= len,
                len == self.storage@.len(),
                count as int == count_open_prefix(self.storage@, i as int),
                count <= i,
            decreases len - i,
        {
            if self.storage[i].state.is_open() {
                count += 1;
            }
            i += 1;
        }
        count
    }

    /// Returns the number of tiles that have not been opened yet.
    pub fn count_closed_tiles(&self) -> (r: usize)
        requires
            self.wf(),
        ensures
            r as int == count_closed_prefix(self.storage@, self.storage@.len() as int),
    {
        let len = self.storage.len();
        let mut count: usize = 0;
        let mut i: usize = 0;
        while i < len
            invariant
                i <= len,
                len == self.storage@.len(),
                count as int == count_closed_prefix(self.storage@, i as int),
                count <= i,
            decreases len - i,
        {
            if self.storage[i].state.is_closed() {
                count += 1;
            }
            i += 1;
        }
        count
    }

    /// Returns the number of tiles the player still needs to open in order to
    /// win: the closed empty tiles. Already opened tiles do not count, and the
    /// value is not the 3BV metric.
    pub fn tiles_to_open(&self) -> (r: usize)
        requires
            self.wf(),
        ensures
            r as int == count_required_prefix(self.storage@, self.storage@.len() as int),
    {
        let len = self.storage.len();
        let mut count: usize = 0;
        let mut i: usize = 0;
        while i < len
            invariant
                i <= len,
                len == self.storage@.len(),
                count as int == count_required_prefix(self.storage@, i as int),
                count <= i,
            decreases len - i,
        {
            if self.storage[i].state.is_required_to_open() {
                count += 1;
            }
            i += 1;
        }
        count
    }

    /// Returns the `i`-th chord neighbor of `c` when it lies on the field.
    pub(crate) fn chord_target_exec(&self, c: FieldCoordinates, i: usize) -> (r: Option<FieldCoordinates>)
        requires
            self.wf(),
            self.spec_in_range(c),
            i < 8,
        ensures
            match r {
                Some(d) => self.chord_target_ok(c, i as int) && d == self.chord_target(
                    c,
                    i as int,
                ),
                None => !self.chord_target_ok(c, i as int),
            },
    {
        let x = c.0;
        let y = c.1;
        let width = self.dimensions.0;
        let height = self.dimensions.1;
        match i {
            0 => if x >= 1 && y + 1 < height {
                Some((x - 1, y + 1))
            } else {
                None
            },
            1 => if y + 1 < height {
                Some((x, y + 1))
            } else {
                None
            },
            2 => if x + 1 < width && y + 1 < height {
                Some((x + 1, y + 1))
            } else {
                None
            },
            3 => if x + 1 < width {
                Some((x + 1, y))
            } else {
                None
            },
            4 => if x + 1 < width && y >= 1 {
                Some((x + 1, y - 1))
            } else {
                None
            },
            5 => if y >= 1 {
                Some((x, y - 1))
            } else {
                None
            },
            6 => if x >= 1 && y >= 1 {
                Some((x - 1, y - 1))
            } else {
                None
            },
            _ => if x >= 1 {
                Some((x - 1, y))
            } else {
                None
            },
        }
    }

    /// Performs a chord on the given tile and returns the outcomes for all 8
    /// surrounding tiles, clockwise from up-left. The chord fires only when the
    /// tile is an open number and the flagged neighbors match its value
    /// exactly; it then opens every unflagged neighbor exactly as `open` would,
    /// one tile at a time, with no further cascading. When it does not fire,
    /// all 8 outcomes are `Nothing` and the field is untouched.
    pub fn chord(&mut self, coordinates: FieldCoordinates) -> (r: ChordOutcome)
        requires
            old(self).wf(),
        ensures
            final(self).wf(),
            final(self).dimensions == old(self).dimensions,
            final(self).storage@.len() == old(self).storage@.len(),
            forall|i: int|
                0 <= i < 8 ==> #[trigger] r@[i] == old(self).spec_chord_outcome(coordinates, i),
            forall|d: FieldCoordinates|
                #![trigger final(self).state_at(d)]
                old(self).spec_in_range(d) ==> final(self).state_at(d) == (if old(
                    self,
                ).spec_chord_fires(coordinates) && old(self).chord_opens(coordinates, d, 8) {
                    old(self).spec_open_result(d)
                } else {
                    old(self).state_at(d)
                }),
            forall|k: int|
                0 <= k < old(self).storage@.len() ==> #[trigger] final(self).storage@[k].payload
                    == old(self).storage@[k].payload,
            forall|x: int, y: int|
                #![trigger final(self).spec_mine_at(x, y)]
                final(self).spec_mine_at(x, y) == old(self).spec_mine_at(x, y),
            forall|x: int, y: int|
                #![trigger final(self).spec_neighbor_mines(x, y)]
                final(self).spec_neighbor_mines(x, y) == old(self).spec_neighbor_mines(x, y),
            forall|x: int, y: int|
                #![trigger final(self).spec_flagged_at(x, y)]
                final(self).spec_flagged_at(x, y) == old(self).spec_flagged_at(x, y),
            !old(self).spec_chord_fires(coordinates) ==> final(self).storage@ == old(
                self,
            ).storage@,
    {
        let mut result: ChordOutcome = [ClickOutcome::Nothing; 8];
        proof {
            assert(forall|i: int| 0 <= i < 8 ==> result@[i] == ClickOutcome::Nothing);
        }
        let num_mines: u8 = match self.get(coordinates) {
            Some(tile) => match &tile.state {
                TileState::OpenNumber(n) => *n,
                _ => {
                    return result;
                },
            },
            None => {
                return result;
            },
        };
        let num_flags = self.count_neighboring_flags(coordinates);
        if num_flags != num_mines {
            return result;
        }
        assert(self.spec_chord_fires(coordinates));
        let ghost f0 = *self;
        let mut i: usize = 0;
        while i < 8
            invariant
                i <= 8,
                f0.wf(),
                f0.spec_in_range(coordinates),
                f0.spec_chord_fires(coordinates),
                self.wf(),
                self.dimensions == f0.dimensions,
                self.storage@.len() == f0.storage@.len(),
                forall|x: int, y: int| self.spec_mine_at(x, y) == f0.spec_mine_at(x, y),
                forall|x: int, y: int|
                    #![trigger self.spec_neighbor_mines(x, y)]
                    self.spec_neighbor_mines(x, y) == f0.spec_neighbor_mines(x, y),
                forall|x: int, y: int| self.spec_flagged_at(x, y) == f0.spec_flagged_at(x, y),
                forall|d: FieldCoordinates|
                    #![trigger self.state_at(d)]
                    f0.spec_in_range(d) ==> self.state_at(d) == (if f0.chord_opens(
                        coordinates,
                        d,
                        i as int,
                    ) {
                        f0.spec_open_result(d)
                    } else {
                        f0.state_at(d)
                    }),
                forall|k: int|
                    0 <= k < f0.storage@.len() ==> #[trigger] self.storage@[k].payload
                        == f0.storage@[k].payload,
                forall|j: int|
                    0 <= j < i ==> #[trigger] result@[j] == f0.spec_chord_outcome(coordinates, j),
                forall|j: int| i <= j < 8 ==> #[trigger] result@[j] == ClickOutcome::Nothing,
            decreases 8 - i,
        {
            match self.chord_target_exec(coordinates, i) {
                Some(d) => {
                    proof {
                        // This direction's tile was not opened by an earlier
                        // direction: distinct directions name distinct tiles.
                        if f0.chord_opens(coordinates, d, i as int) {
                            let j = choose|j: int|
                                0 <= j < i && f0.chord_target_ok(coordinates, j)
                                    && #[trigger] f0.chord_target(coordinates, j) == d;
                            lemma_chord_targets_distinct(coordinates, j, i as int);
                            assert(false);
                        }
                        assert(self.state_at(d) == f0.state_at(d));
                        assert(self.spec_peek(d) == f0.spec_peek(d));
                    }
                    if !self.flagged_at(d.0, d.1) {
                        let ghost prev = *self;
                        let o = match self.open(d) {
                            Some(o) => o,
                            None => vstd::pervasive::unreached(),
                        };
                        result[i] = o;
                        proof {
                            lemma_open_preserves_rest(prev, *self, d);
                            assert(prev.spec_open_result(d) == f0.spec_open_result(d));
                            assert(self.state_at(d) == f0.spec_open_result(d));
                            assert(o == f0.spec_chord_outcome(coordinates, i as int));
                            assert forall|e: FieldCoordinates| f0.spec_in_range(e) implies
                                self.state_at(e) == (if f0.chord_opens(
                                coordinates,
                                e,
                                i as int + 1,
                            ) {
                                f0.spec_open_result(e)
                            } else {
                                f0.state_at(e)
                            }) by {
                                if e == d {
                                    assert(f0.chord_target(coordinates, i as int) == d);
                                    assert(f0.chord_opens(coordinates, e, i as int + 1));
                                } else {
                                    assert(self.state_at(e) == prev.state_at(e));
                                    if f0.chord_opens(coordinates, e, i as int + 1) {
                                        let j = choose|j: int|
                                            0 <= j < i as int + 1 && f0.chord_target_ok(
                                                coordinates,
                                                j,
                                            ) && #[trigger] f0.chord_target(coordinates, j) == e;
                                        assert(j < i as int);
                                        assert(f0.chord_opens(coordinates, e, i as int));
                                    }
                                }
                            }
                        }
                    } else {
                        proof {
                            assert(f0.state_at(d).spec_is_flagged());
                            assert(f0.spec_chord_outcome(coordinates, i as int)
                                == ClickOutcome::Nothing);
                            assert forall|e: FieldCoordinates| f0.spec_in_range(e) implies
                                self.state_at(e) == (if f0.chord_opens(
                                coordinates,
                                e,
                                i as int + 1,
                            ) {
                                f0.spec_open_result(e)
                            } else {
                                f0.state_at(e)
                            }) by {
                                if f0.chord_opens(coordinates, e, i as int + 1) && !f0.chord_opens(
                                    coordinates,
                                    e,
                                    i as int,
                                ) {
                                    let j = choose|j: int|
                                        0 <= j < i as int + 1 && f0.chord_target_ok(coordinates, j)
                                            && #[trigger] f0.chord_target(coordinates, j) == e;
                                    assert(j == i as int);
                                    assert(e == d);
                                    assert(false);
                                }
                            }
                        }
                    }
                },
                None => {
                    proof {
                        assert(f0.spec_chord_outcome(coordinates, i as int)
                            == ClickOutcome::Nothing);
                        assert forall|e: FieldCoordinates| f0.spec_in_range(e) implies
                            self.state_at(e) == (if f0.chord_opens(coordinates, e, i as int + 1) {
                            f0.spec_open_result(e)
                        } else {
                            f0.state_at(e)
                        }) by {
                            if f0.chord_opens(coordinates, e, i as int + 1) && !f0.chord_opens(
                                coordinates,
                                e,
                                i as int,
                            ) {
                                let j = choose|j: int|
                                    0 <= j < i as int + 1 && f0.chord_target_ok(coordinates, j)
                                        && #[trigger] f0.chord_target(coordinates, j) == e;
                                assert(j == i as int);
                                assert(false);
                            }
                        }
                    }
                },
            }
            i += 1;
        }
        result
    }

    /// Performs a chord on the given tile and then, repeatedly, on every tile
    /// around a chord that exposed something, each tile at most once, until no
    /// chord exposes anything new: when the call returns, every recorded chord
    /// that exposed something has had all 8 of its on-field neighbors chorded
    /// and recorded too, and every record after the first sits among the 8
    /// neighbors of an earlier record that exposed something. Returns one
    /// `(coordinates, outcome)` entry per chord executed, the given tile's
    /// first; a replay chain pins every recorded outcome to the exact board
    /// state its chord ran on, so the whole run is determined by the starting
    /// board. The `Chord` entries in the outcomes have all been executed by
    /// the time the call returns. The driver keeps its own heap-allocated
    /// stack instead of native recursion, so the call depth stays constant
    /// however large the grid is.
    #[verifier::rlimit(100)]
    pub fn recursive_chord(&mut self, index: FieldCoordinates) -> (r: Vec<RecursiveChordOutcome>)
        requires
            old(self).wf(),
        ensures
            final(self).wf(),
            rc_evolution(old(self), final(self), r@),
            old(self).spec_in_range(index) ==> r@.len() >= 1 && r@[0].0 == index && (forall|i: int|
                0 <= i < 8 ==> r@[0].1@[i] == old(self).spec_chord_outcome(index, i)),
            !old(self).spec_in_range(index) ==> r@.len() == 0 && *final(self) == *old(self),
            forall|k: int, i: int|
                (0 <= k < r@.len() && 0 <= i < 8 && !trivial_chord(r@[k].1) && old(
                    self,
                ).chord_target_ok(r@[k].0, i)) ==> rec_contains(r@, #[trigger] old(
                    self,
                ).chord_target(r@[k].0, i)),
            forall|k: int| 0 < k < r@.len() ==> #[trigger] descends_from(old(self), r@, k),
            exists|trace: Seq<Field<Ct, Cf>>|
                #![trigger rc_replay(r@, trace)]
                rc_replay(r@, trace) && trace[0] == *old(self) && trace[trace.len() - 1]
                    == *final(self),
    {
        let width = self.dimensions.0;
        let height = self.dimensions.1;
        if !(index.0 < width && index.1 < height) {
            let empty_run: Vec<RecursiveChordOutcome> = Vec::new();
            proof {
                let t0 = seq![*self];
                assert(t0[0] == *self);
                assert(rc_replay(empty_run@, t0));
            }
            return empty_run;
        }
        let area = self.storage.len();
        let ghost f0 = *self;
        let ghost mut trace: Seq<Field<Ct, Cf>> = seq![f0];
        let mut visited: Vec<bool> = Vec::with_capacity(area);
        let mut i: usize = 0;
        while i < area
            invariant
                i <= area,
                visited@.len() == i,
                forall|j: int| 0 <= j < i ==> !visited@[j],
            decreases area - i,
        {
            visited.push(false);
            i += 1;
        }
        let mut results: Vec<RecursiveChordOutcome> = Vec::new();
        let mut work: Vec<FieldCoordinates> = Vec::new();
        proof {
            lemma_count_true_all_false(visited@, visited@.len() as int);
            assert forall|c: FieldCoordinates| f0.spec_in_range(c) implies (
            visited@[f0.spec_index_of(c)] <==> rec_contains(results@, c)) by {
                lemma_index_in_bounds(width as int, height as int, c.0 as int, c.1 as int);
            }
            assert(rc_inv(&f0, &f0, visited@, results@, work@, None::<FieldCoordinates>));
            lemma_index_in_bounds(width as int, height as int, index.0 as int, index.1 as int);
            assert(!visited@[f0.spec_index_of(index)]);
            assert(trace[0] == f0);
        }
        let ghost root_r = results@;
        rc_consider(
            self,
            Ghost(f0),
            Ghost(None::<FieldCoordinates>),
            index,
            &mut visited,
            &mut results,
            &mut work,
        );
        proof {
            assert(results@ =~= root_r.push(results@[results@.len() - 1]));
            lemma_replay_extend(root_r, results@[results@.len() - 1], trace, *self);
            trace = trace.push(*self);
        }
        while work.len() > 0
            invariant
                f0.wf(),
                f0.spec_in_range(index),
                width == f0.dimensions.0,
                height == f0.dimensions.1,
                area == f0.storage@.len(),
                rc_inv(&f0, self, visited@, results@, work@, None::<FieldCoordinates>),
                results@.len() >= 1,
                results@[0].0 == index,
                forall|i: int| 0 <= i < 8 ==> results@[0].1@[i] == f0.spec_chord_outcome(index, i),
                rc_replay(results@, trace),
                trace[0] == f0,
                trace[trace.len() - 1] == *self,
            decreases 2 * (area - results@.len()) + work@.len(),
        {
            let Ghost(new_trace) = rc_expand(
                self,
                Ghost(f0),
                &mut visited,
                &mut results,
                &mut work,
                Ghost(trace),
            );
            proof {
                trace = new_trace;
            }
        }
        proof {
            // The invariant's descent witnesses carry over to the caller's
            // view of the starting board.
            assert forall|k: int| 0 < k < results@.len() implies #[trigger] descends_from(
                old(self),
                results@,
                k,
            ) by {
                assert(descends_from(&f0, results@, k));
            }
        }
        results
    }

    /// Returns `true` exactly when the field is fully solved, that is, when no
    /// closed empty tile is left to open (the winning condition).
    pub fn solved(&self) -> (r: bool)
        requires
            self.wf(),
        ensures
            r == (count_required_prefix(self.storage@, self.storage@.len() as int) == 0),
    {
        self.tiles_to_open() == 0
    }
}

} // verus!

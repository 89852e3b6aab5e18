//! The clearing engine: the flood fill that enumerates the maximal 4-connected
//! region of zero-neighbor tiles around an anchor ("the clearing"), optionally
//! together with its bordering numbered tiles ("the shore").
//!
//! The traversal keeps its own heap-allocated stack of pending tiles instead of
//! using native recursion: a clearing can span the whole grid, and the native
//! call depth must stay constant however large the grid is.

use vstd::prelude::*;

use crate::field::lemma_index_in_bounds;
use crate::field::lemma_index_injective;
use crate::field::Field;
use crate::field::FieldCoordinates;
use crate::tile::ClickOutcome;
use crate::tile::TileState;

verus! {

broadcast use vstd::seq_lib::group_seq_properties, vstd::set::group_set_axioms;

/// Whether `a` and `b` are 4-adjacent: directly above, below, left or right of
/// one another.
pub open spec fn adjacent4(a: FieldCoordinates, b: FieldCoordinates) -> bool {
    ||| (a.0 == b.0 && (a.1 + 1 == b.1 || b.1 + 1 == a.1))
    ||| (a.1 == b.1 && (a.0 + 1 == b.0 || b.0 + 1 == a.0))
}

/// Whether the flood fill keeps expanding outward from `c`: the anchor always
/// expands, and any other tile expands exactly when its click resolution is
/// `OpenClearing` (an open empty tile, or a closed empty tile with no
/// neighboring mines).
pub open spec fn expands<Ct, Cf>(
    f: &Field<Ct, Cf>,
    anchor: FieldCoordinates,
    c: FieldCoordinates,
) -> bool {
    c == anchor || (f.spec_in_range(c) && f.spec_peek(c) is OpenClearing)
}

/// Whether the fill may visit `c` when reaching it from a neighbor: an
/// expanding tile always, and a numbered tile exactly when the shore is
/// included. Mines and already-numbered chords are never visited.
pub open spec fn eligible<Ct, Cf>(
    f: &Field<Ct, Cf>,
    c: FieldCoordinates,
    include_shore: bool,
) -> bool {
    f.spec_in_range(c) && (f.spec_peek(c) is OpenClearing || (include_shore && f.spec_peek(
        c,
    ) is OpenNumber))
}

/// A path the flood fill can take: it starts at the anchor, ends at `c`, steps
/// between 4-adjacent tiles, keeps expanding at every tile before the last,
/// and every tile after the anchor is eligible to be visited.
pub open spec fn is_fill_path<Ct, Cf>(
    f: &Field<Ct, Cf>,
    anchor: FieldCoordinates,
    include_shore: bool,
    p: Seq<FieldCoordinates>,
    c: FieldCoordinates,
) -> bool {
    &&& p.len() >= 1
    &&& p[0] == anchor
    &&& p[p.len() - 1] == c
    &&& forall|k: int|
        0 <= k < p.len() - 1 ==> expands(f, anchor, #[trigger] p[k]) && adjacent4(p[k], p[k + 1])
    &&& forall|k: int| 0 < k < p.len() ==> eligible(f, #[trigger] p[k], include_shore)
}

/// Whether `c` belongs to the clearing anchored at `anchor`: some fill path
/// reaches it. The anchor itself always belongs (the one-tile path).
pub open spec fn in_clearing<Ct, Cf>(
    f: &Field<Ct, Cf>,
    anchor: FieldCoordinates,
    include_shore: bool,
    c: FieldCoordinates,
) -> bool {
    exists|p: Seq<FieldCoordinates>| is_fill_path(f, anchor, include_shore, p, c)
}

/// Extending a fill path by one step: from a reachable expanding tile, any
/// 4-adjacent eligible tile is reachable too.
proof fn lemma_path_extend<Ct, Cf>(
    f: &Field<Ct, Cf>,
    anchor: FieldCoordinates,
    include_shore: bool,
    c: FieldCoordinates,
    d: FieldCoordinates,
)
    requires
        in_clearing(f, anchor, include_shore, c),
        expands(f, anchor, c),
        adjacent4(c, d),
        eligible(f, d, include_shore),
    ensures
        in_clearing(f, anchor, include_shore, d),
{
    let p = choose|p: Seq<FieldCoordinates>| is_fill_path(f, anchor, include_shore, p, c);
    let q = p.push(d);
    assert(q[0] == p[0]);
    assert(q[q.len() - 1] == d);
    assert forall|k: int| 0 <= k < q.len() - 1 implies expands(f, anchor, #[trigger] q[k])
        && adjacent4(q[k], q[k + 1]) by {
        if k < p.len() - 1 {
            assert(q[k] == p[k]);
            assert(q[k + 1] == p[k + 1]);
        } else {
            assert(q[k] == p[p.len() - 1]);
            assert(q[k + 1] == d);
        }
    }
    assert forall|k: int| 0 < k < q.len() implies eligible(f, #[trigger] q[k], include_shore) by {
        if k < p.len() {
            assert(q[k] == p[k]);
        } else {
            assert(q[k] == d);
        }
    }
    assert(is_fill_path(f, anchor, include_shore, q, d));
}

/// A set that contains the anchor and is closed under one fill step contains
/// every tile that any fill path reaches.
proof fn lemma_fill_path_in_closed_set<Ct, Cf>(
    f: &Field<Ct, Cf>,
    anchor: FieldCoordinates,
    include_shore: bool,
    s: Seq<FieldCoordinates>,
    p: Seq<FieldCoordinates>,
    c: FieldCoordinates,
)
    requires
        is_fill_path(f, anchor, include_shore, p, c),
        s.contains(anchor),
        forall|a: FieldCoordinates, b: FieldCoordinates|
            #![trigger s.contains(a), adjacent4(a, b)]
            s.contains(a) && expands(f, anchor, a) && adjacent4(a, b) && eligible(
                f,
                b,
                include_shore,
            ) ==> s.contains(b),
    ensures
        s.contains(c),
    decreases p.len(),
{
    if p.len() <= 1 {
        assert(c == anchor);
    } else {
        let n = p.len() as int;
        let q = p.subrange(0, n - 1);
        let b = p[n - 2];
        assert(q[0] == p[0]);
        assert(q[q.len() - 1] == b);
        assert forall|k: int| 0 <= k < q.len() - 1 implies expands(f, anchor, #[trigger] q[k])
            && adjacent4(q[k], q[k + 1]) by {
            assert(q[k] == p[k]);
            assert(q[k + 1] == p[k + 1]);
        }
        assert forall|k: int| 0 < k < q.len() implies eligible(f, #[trigger] q[k], include_shore) by {
            assert(q[k] == p[k]);
        }
        assert(is_fill_path(f, anchor, include_shore, q, b));
        lemma_fill_path_in_closed_set(f, anchor, include_shore, s, q, b);
        assert(expands(f, anchor, p[n - 2]));
        assert(adjacent4(p[n - 2], p[n - 1]));
        assert(eligible(f, p[n - 1], include_shore));
        assert(s.contains(c));
    }
}

/// The number of `true` entries among the first `n` of a boolean sequence.
pub(crate) open spec fn count_true_prefix(s: Seq<bool>, n: int) -> int
    decreases n,
{
    if n <= 0 {
        0
    } else {
        count_true_prefix(s, n - 1) + if s[n - 1] {
            1int
        } else {
            0int
        }
    }
}

pub(crate) proof fn lemma_count_true_le(s: Seq<bool>, n: int)
    ensures
        0 <= count_true_prefix(s, n) <= n || n < 0,
    decreases n,
{
    if n > 0 {
        lemma_count_true_le(s, n - 1);
    }
}

pub(crate) proof fn lemma_count_true_agree(s: Seq<bool>, t: Seq<bool>, n: int)
    requires
        forall|j: int| 0 <= j < n ==> s[j] == t[j],
    ensures
        count_true_prefix(s, n) == count_true_prefix(t, n),
    decreases n,
{
    if n > 0 {
        lemma_count_true_agree(s, t, n - 1);
    }
}

pub(crate) proof fn lemma_count_true_all_false(s: Seq<bool>, n: int)
    requires
        forall|j: int| 0 <= j < n ==> !s[j],
    ensures
        count_true_prefix(s, n) == 0,
    decreases n,
{
    if n > 0 {
        lemma_count_true_all_false(s, n - 1);
    }
}

pub(crate) proof fn lemma_count_true_update(s: Seq<bool>, i: int, n: int)
    requires
        0 <= i < n <= s.len(),
        !s[i],
    ensures
        count_true_prefix(s.update(i, true), n) == count_true_prefix(s, n) + 1,
    decreases n,
{
    let t = s.update(i, true);
    if i == n - 1 {
        lemma_count_true_agree(s, t, n - 1);
    } else {
        lemma_count_true_update(s, i, n - 1);
        assert(t[n - 1] == s[n - 1]);
    }
}

/// The representation invariant of the flood fill: `visited` marks exactly the
/// enumerated tiles, the enumeration is duplicate-free, in range, eligible
/// after the anchor and reachable throughout, the pending stack holds
/// enumerated tiles only, and—except for the pending tiles and the tile
/// currently being expanded—every enumerated expanding tile already has all
/// its eligible neighbors enumerated.
spec fn fill_inv<Ct, Cf>(
    f: &Field<Ct, Cf>,
    anchor: FieldCoordinates,
    include_shore: bool,
    visited: Seq<bool>,
    out: Seq<FieldCoordinates>,
    work: Seq<FieldCoordinates>,
    except: Option<FieldCoordinates>,
) -> bool {
    &&& visited.len() == f.storage@.len()
    &&& out.len() >= 1
    &&& out.len() <= visited.len()
    &&& out[0] == anchor
    &&& out.len() == count_true_prefix(visited, visited.len() as int)
    &&& forall|i: int| 0 <= i < out.len() ==> f.spec_in_range(#[trigger] out[i])
    &&& forall|i: int| 0 < i < out.len() ==> eligible(f, #[trigger] out[i], include_shore)
    &&& forall|i: int|
        0 <= i < out.len() ==> in_clearing(f, anchor, include_shore, #[trigger] out[i])
    &&& forall|i: int, j: int| 0 <= i < j < out.len() ==> out[i] != out[j]
    &&& forall|c: FieldCoordinates|
        #![trigger out.contains(c)]
        #![trigger visited[f.spec_index_of(c)]]
        f.spec_in_range(c) ==> (visited[f.spec_index_of(c)] <==> out.contains(c))
    &&& forall|i: int| 0 <= i < work.len() ==> out.contains(#[trigger] work[i])
    &&& forall|i: int, j: int| 0 <= i < j < work.len() ==> work[i] != work[j]
    &&& forall|a: FieldCoordinates, b: FieldCoordinates|
        #![trigger out.contains(a), adjacent4(a, b)]
        out.contains(a) && !work.contains(a) && except != Some(a) && expands(f, anchor, a)
            && adjacent4(a, b) && eligible(f, b, include_shore) ==> out.contains(b)
}

/// Whether the fill may visit `d`: its resolution, read from the live field.
fn eligible_exec<Ct, Cf>(field: &Field<Ct, Cf>, d: FieldCoordinates, include_shore: bool) -> (r:
    bool)
    requires
        field.wf(),
    ensures
        r == eligible(field, d, include_shore),
{
    match field.peek(d) {
        Some(o) => match o {
            ClickOutcome::OpenClearing => true,
            ClickOutcome::OpenNumber(_) => include_shore,
            _ => false,
        },
        None => false,
    }
}

/// One fill step: look at the neighbor `d` of the tile `c` being expanded,
/// and enumerate it when it has not been visited yet and is eligible.
fn consider_neighbor<Ct, Cf>(
    field: &Field<Ct, Cf>,
    anchor: FieldCoordinates,
    include_shore: bool,
    c: FieldCoordinates,
    d: FieldCoordinates,
    visited: &mut Vec<bool>,
    out: &mut Vec<FieldCoordinates>,
    work: &mut Vec<FieldCoordinates>,
)
    requires
        field.wf(),
        field.spec_in_range(anchor),
        field.spec_in_range(d),
        adjacent4(c, d),
        expands(field, anchor, c),
        in_clearing(field, anchor, include_shore, c),
        fill_inv(field, anchor, include_shore, old(visited)@, old(out)@, old(work)@, Some(c)),
    ensures
        fill_inv(field, anchor, include_shore, final(visited)@, final(out)@, final(work)@, Some(c)),
        eligible(field, d, include_shore) ==> final(out)@.contains(d),
        forall|e: FieldCoordinates| old(out)@.contains(e) ==> final(out)@.contains(e),
        final(work)@ == old(work)@ || final(work)@ == old(work)@.push(d),
        2 * (field.storage@.len() - final(out)@.len()) + final(work)@.len() <= 2 * (
        field.storage@.len() - old(out)@.len()) + old(work)@.len(),
{
    let width = field.dimensions.0;
    let height = field.dimensions.1;
    let area = field.storage.len();
    proof {
        lemma_index_in_bounds(width as int, height as int, d.0 as int, d.1 as int);
    }
    let di = d.1 * width + d.0;
    if !visited[di] {
        if eligible_exec(field, d, include_shore) {
            proof {
                lemma_path_extend(field, anchor, include_shore, c, d);
                lemma_count_true_update(visited@, di as int, visited@.len() as int);
                lemma_count_true_le(visited@.update(di as int, true), visited@.len() as int);
                assert(!out@.contains(d));
            }
            visited[di] = true;
            out.push(d);
            work.push(d);
            proof {
                let nout = out@;
                let nvis = visited@;
                assert forall|e: FieldCoordinates| field.spec_in_range(e) implies (
                nvis[field.spec_index_of(e)] <==> nout.contains(e)) by {
                    lemma_index_in_bounds(width as int, height as int, e.0 as int, e.1 as int);
                    if field.spec_index_of(e) == di as int {
                        lemma_index_injective(
                            width as int,
                            height as int,
                            e.0 as int,
                            e.1 as int,
                            d.0 as int,
                            d.1 as int,
                        );
                        assert(e == d);
                        assert(nout[nout.len() - 1] == d);
                        assert(nout.contains(d));
                    } else {
                        assert(nvis[field.spec_index_of(e)] == old(visited)@[field.spec_index_of(
                            e,
                        )]);
                        if nout.contains(e) {
                            let i = choose|i: int| 0 <= i < nout.len() && nout[i] == e;
                            assert(i < nout.len() - 1);
                            assert(old(out)@.contains(e));
                        }
                    }
                }
                assert forall|a: FieldCoordinates, b: FieldCoordinates|
                    #![trigger nout.contains(a), adjacent4(a, b)]
                    nout.contains(a) && !work@.contains(a) && Some(c) != Some(a) && expands(
                        field,
                        anchor,
                        a,
                    ) && adjacent4(a, b) && eligible(field, b, include_shore) implies nout.contains(
                    b,
                ) by {
                    if a == d {
                        assert(work@[work@.len() - 1] == d);
                        assert(work@.contains(a));
                    } else {
                        let i = choose|i: int| 0 <= i < nout.len() && nout[i] == a;
                        assert(i < nout.len() - 1);
                        assert(old(out)@.contains(a));
                        if old(work)@.contains(a) {
                            assert(work@.contains(a));
                        } else {
                            assert(old(out)@.contains(b));
                        }
                    }
                }
            }
        }
    } else {
        proof {
            assert(out@.contains(d));
        }
    }
}

/// Enumerates the clearing anchored at `anchor`: every tile some fill path
/// reaches, each exactly once, the anchor first. With `include_shore` the
/// bordering numbered tiles are part of the enumeration; mines and
/// already-numbered tiles never are (beyond the anchor itself).
pub(crate) fn clearing_tiles<Ct, Cf>(
    field: &Field<Ct, Cf>,
    anchor: FieldCoordinates,
    include_shore: bool,
) -> (out: Vec<FieldCoordinates>)
    requires
        field.wf(),
        field.spec_in_range(anchor),
    ensures
        out@.len() >= 1,
        out@[0] == anchor,
        forall|i: int, j: int| 0 <= i < j < out@.len() ==> out@[i] != out@[j],
        forall|i: int| 0 <= i < out@.len() ==> field.spec_in_range(#[trigger] out@[i]),
        forall|i: int| 0 < i < out@.len() ==> eligible(field, #[trigger] out@[i], include_shore),
        forall|c: FieldCoordinates| #[trigger]
            out@.contains(c) <==> in_clearing(field, anchor, include_shore, c),
{
    let width = field.dimensions.0;
    let height = field.dimensions.1;
    let area = field.storage.len();
    let mut visited: Vec<bool> = Vec::with_capacity(area);
    let mut i: usize = 0;
    while i < area
        invariant
            i <= area,
            visited@.len() == i,
            forall|j: int| 0 <= j < i ==> !visited@[j],
        decreases area - i,
    {
        visited.push(false);
        i += 1;
    }
    let mut out: Vec<FieldCoordinates> = Vec::new();
    let mut work: Vec<FieldCoordinates> = Vec::new();
    proof {
        lemma_index_in_bounds(width as int, height as int, anchor.0 as int, anchor.1 as int);
        lemma_count_true_all_false(visited@, visited@.len() as int);
    }
    let ai = anchor.1 * width + anchor.0;
    proof {
        lemma_count_true_update(visited@, ai as int, visited@.len() as int);
    }
    visited[ai] = true;
    out.push(anchor);
    work.push(anchor);
    proof {
        let p = seq![anchor];
        assert(is_fill_path(field, anchor, include_shore, p, anchor));
        assert(in_clearing(field, anchor, include_shore, anchor));
        assert(out@[0] == anchor);
        assert forall|e: FieldCoordinates| field.spec_in_range(e) implies (
        visited@[field.spec_index_of(e)] <==> out@.contains(e)) by {
            lemma_index_in_bounds(width as int, height as int, e.0 as int, e.1 as int);
            if field.spec_index_of(e) == ai as int {
                lemma_index_injective(
                    width as int,
                    height as int,
                    e.0 as int,
                    e.1 as int,
                    anchor.0 as int,
                    anchor.1 as int,
                );
                assert(e == anchor);
                assert(out@.contains(anchor));
            } else {
                if out@.contains(e) {
                    let i0 = choose|i0: int| 0 <= i0 < out@.len() && out@[i0] == e;
                    assert(e == anchor);
                    assert(false);
                }
            }
        }
        assert(fill_inv(
            field,
            anchor,
            include_shore,
            visited@,
            out@,
            work@,
            None::<FieldCoordinates>,
        ));
    }
    while work.len() > 0
        invariant
            field.wf(),
            field.spec_in_range(anchor),
            width == field.dimensions.0,
            height == field.dimensions.1,
            area == field.storage@.len(),
            fill_inv(
                field,
                anchor,
                include_shore,
                visited@,
                out@,
                work@,
                None::<FieldCoordinates>,
            ),
        decreases 2 * (area - out@.len()) + work@.len(),
    {
        let ghost prev_work = work@;
        let c = match work.pop() {
            Some(c) => c,
            None => vstd::pervasive::unreached(),
        };
        proof {
            assert(prev_work[prev_work.len() - 1] == c);
            assert(out@.contains(c));
            let ci = choose|ci: int| 0 <= ci < out@.len() && out@[ci] == c;
            assert(in_clearing(field, anchor, include_shore, c));
            assert(field.spec_in_range(c));
            // After the pop, only `c` itself can have left the pending stack.
            assert forall|a: FieldCoordinates| prev_work.contains(a) && a != c implies
                work@.contains(a) by {
                let i0 = choose|i0: int| 0 <= i0 < prev_work.len() && prev_work[i0] == a;
                assert(i0 < prev_work.len() - 1);
                assert(work@[i0] == a);
            }
            assert(fill_inv(field, anchor, include_shore, visited@, out@, work@, Some(c)));
        }
        let is_exp = if c.0 == anchor.0 && c.1 == anchor.1 {
            true
        } else {
            match field.peek(c) {
                Some(o) => matches!(o, ClickOutcome::OpenClearing),
                None => false,
            }
        };
        if is_exp {
            assert(expands(field, anchor, c));
            if c.1 + 1 < height {
                consider_neighbor(
                    field,
                    anchor,
                    include_shore,
                    c,
                    (c.0, c.1 + 1),
                    &mut visited,
                    &mut out,
                    &mut work,
                );
            }
            if c.1 >= 1 {
                consider_neighbor(
                    field,
                    anchor,
                    include_shore,
                    c,
                    (c.0, c.1 - 1),
                    &mut visited,
                    &mut out,
                    &mut work,
                );
            }
            if c.0 >= 1 {
                consider_neighbor(
                    field,
                    anchor,
                    include_shore,
                    c,
                    (c.0 - 1, c.1),
                    &mut visited,
                    &mut out,
                    &mut work,
                );
            }
            if c.0 + 1 < width {
                consider_neighbor(
                    field,
                    anchor,
                    include_shore,
                    c,
                    (c.0 + 1, c.1),
                    &mut visited,
                    &mut out,
                    &mut work,
                );
            }
            proof {
                assert forall|b: FieldCoordinates| adjacent4(c, b) && eligible(
                    field,
                    b,
                    include_shore,
                ) implies out@.contains(b) by {
                    assert(b.0 < field.dimensions.0 && b.1 < field.dimensions.1);
                    if b.0 == c.0 && b.1 == c.1 + 1 {
                        assert(b == (c.0, (c.1 + 1) as usize));
                    } else if b.0 == c.0 && b.1 + 1 == c.1 {
                        assert(b == (c.0, (c.1 - 1) as usize));
                    } else if b.1 == c.1 && b.0 + 1 == c.0 {
                        assert(b == ((c.0 - 1) as usize, c.1));
                    } else {
                        assert(b.1 == c.1 && b.0 == c.0 + 1);
                        assert(b == ((c.0 + 1) as usize, c.1));
                    }
                }
                assert forall|a: FieldCoordinates, b: FieldCoordinates|
                    #![trigger out@.contains(a), adjacent4(a, b)]
                    out@.contains(a) && !work@.contains(a) && expands(field, anchor, a)
                        && adjacent4(a, b) && eligible(field, b, include_shore) implies
                    out@.contains(b) by {
                    if a != c {
                        assert(out@.contains(b));
                    }
                }
                assert(fill_inv(
                    field,
                    anchor,
                    include_shore,
                    visited@,
                    out@,
                    work@,
                    None::<FieldCoordinates>,
                ));
            }
        } else {
            proof {
                assert(!expands(field, anchor, c));
                assert(fill_inv(
                    field,
                    anchor,
                    include_shore,
                    visited@,
                    out@,
                    work@,
                    None::<FieldCoordinates>,
                ));
            }
        }
    }
    proof {
        assert(out@.contains(anchor));
        assert forall|c: FieldCoordinates| #[trigger]
            in_clearing(field, anchor, include_shore, c) implies out@.contains(c) by {
            let p = choose|p: Seq<FieldCoordinates>|
                is_fill_path(field, anchor, include_shore, p, c);
            assert forall|a: FieldCoordinates, b: FieldCoordinates|
                #![trigger out@.contains(a), adjacent4(a, b)]
                out@.contains(a) && expands(field, anchor, a) && adjacent4(a, b) && eligible(
                    field,
                    b,
                    include_shore,
                ) implies out@.contains(b) by {
                assert(!work@.contains(a));
            }
            lemma_fill_path_in_closed_set(field, anchor, include_shore, out@, p, c);
        }
        assert forall|c: FieldCoordinates| #[trigger]
            out@.contains(c) implies in_clearing(field, anchor, include_shore, c) by {
            let i0 = choose|i0: int| 0 <= i0 < out@.len() && out@[i0] == c;
            assert(in_clearing(field, anchor, include_shore, out@[i0]));
        }
    }
    out
}

/// The distance between two column or row indexes.
pub open spec fn span(a: int, b: int) -> int {
    if a >= b {
        a - b
    } else {
        b - a
    }
}

/// Law: on a board where every tile resolves to `OpenClearing` — open empty
/// tiles and closed empty tiles with no neighboring mines — the clearing
/// anchored anywhere covers the whole board: every tile is reachable, since
/// any two tiles are joined by a staircase of expanding steps.
pub proof fn lemma_all_expanding_board_is_one_clearing<Ct, Cf>(
    f: &Field<Ct, Cf>,
    anchor: FieldCoordinates,
    include_shore: bool,
    c: FieldCoordinates,
)
    requires
        f.wf(),
        f.spec_in_range(anchor),
        f.spec_in_range(c),
        forall|d: FieldCoordinates|
            f.spec_in_range(d) ==> (#[trigger] f.spec_peek(d)) is OpenClearing,
    ensures
        in_clearing(f, anchor, include_shore, c),
    decreases span(c.0 as int, anchor.0 as int) + span(c.1 as int, anchor.1 as int),
{
    if c == anchor {
        let p = seq![anchor];
        assert(is_fill_path(f, anchor, include_shore, p, anchor));
    } else if c.0 != anchor.0 {
        let prev: FieldCoordinates = if c.0 > anchor.0 {
            ((c.0 - 1) as usize, c.1)
        } else {
            ((c.0 + 1) as usize, c.1)
        };
        lemma_all_expanding_board_is_one_clearing(f, anchor, include_shore, prev);
        lemma_path_extend(f, anchor, include_shore, prev, c);
    } else {
        let prev: FieldCoordinates = if c.1 > anchor.1 {
            (c.0, (c.1 - 1) as usize)
        } else {
            (c.0, (c.1 + 1) as usize)
        };
        lemma_all_expanding_board_is_one_clearing(f, anchor, include_shore, prev);
        lemma_path_extend(f, anchor, include_shore, prev, c);
    }
}

/// Law: a clearing visited without the shore never contains a tile with a
/// nonzero neighboring-mine count. This holds on boards whose open empty tiles
/// are consistent — each really has no neighboring mines — which every board
/// built by this library's own operations satisfies; a hand-crafted storage
/// with an `OpenEmpty` tile next to a mine falls outside it.
pub proof fn lemma_clearing_members_have_no_neighbor_mines<Ct, Cf>(
    f: &Field<Ct, Cf>,
    anchor: FieldCoordinates,
    c: FieldCoordinates,
)
    requires
        f.wf(),
        f.spec_in_range(anchor),
        f.spec_neighbor_mines(anchor.0 as int, anchor.1 as int) == 0,
        forall|d: FieldCoordinates|
            f.spec_in_range(d) && (#[trigger] f.state_at(d)) is OpenEmpty
                ==> f.spec_neighbor_mines(d.0 as int, d.1 as int) == 0,
        in_clearing(f, anchor, false, c),
    ensures
        f.spec_neighbor_mines(c.0 as int, c.1 as int) == 0,
{
    let p = choose|p: Seq<FieldCoordinates>| is_fill_path(f, anchor, false, p, c);
    if p.len() == 1 {
        assert(c == anchor);
    } else {
        assert(eligible(f, p[p.len() - 1], false));
        assert(f.spec_peek(c) is OpenClearing);
    }
}

/// Law: a clearing never contains a mine beyond (at most) its own anchor,
/// whether or not the shore is visited: every visited tile after the anchor
/// resolves to a clearing or a number, never to an explosion.
pub proof fn lemma_clearing_contains_no_mines<Ct, Cf>(
    f: &Field<Ct, Cf>,
    anchor: FieldCoordinates,
    c: FieldCoordinates,
    include_shore: bool,
)
    requires
        f.wf(),
        f.spec_in_range(anchor),
        in_clearing(f, anchor, include_shore, c),
    ensures
        c != anchor ==> !f.state_at(c).spec_is_mine(),
        !f.state_at(anchor).spec_is_mine() ==> !f.state_at(c).spec_is_mine(),
{
    let p = choose|p: Seq<FieldCoordinates>| is_fill_path(f, anchor, include_shore, p, c);
    if p.len() == 1 {
        assert(c == anchor);
    } else {
        assert(eligible(f, p[p.len() - 1], include_shore));
    }
}

/// The clearing as a set: every coordinate some fill path reaches.
pub open spec fn clearing_set<Ct, Cf>(
    f: &Field<Ct, Cf>,
    anchor: FieldCoordinates,
    include_shore: bool,
) -> Set<FieldCoordinates> {
    Set::new(|c: FieldCoordinates| in_clearing(f, anchor, include_shore, c))
}

/// The still-closed part of the clearing: the coordinates a clearing-open
/// would flip from `ClosedEmpty` to `OpenEmpty`.
pub open spec fn closed_clearing_set<Ct, Cf>(
    f: &Field<Ct, Cf>,
    anchor: FieldCoordinates,
    include_shore: bool,
) -> Set<FieldCoordinates> {
    Set::new(
        |c: FieldCoordinates| in_clearing(f, anchor, include_shore, c) && f.state_at(
            c,
        ) is ClosedEmpty,
    )
}

/// A duplicate-free enumeration of the clearing has exactly the cardinality of
/// the clearing set.
proof fn lemma_enumeration_counts_set<Ct, Cf>(
    f: &Field<Ct, Cf>,
    anchor: FieldCoordinates,
    include_shore: bool,
    tiles: Seq<FieldCoordinates>,
)
    requires
        forall|i: int, j: int| 0 <= i < j < tiles.len() ==> tiles[i] != tiles[j],
        forall|c: FieldCoordinates| #[trigger]
            tiles.contains(c) <==> in_clearing(f, anchor, include_shore, c),
    ensures
        clearing_set(f, anchor, include_shore).finite(),
        clearing_set(f, anchor, include_shore).len() == tiles.len(),
{
    assert(tiles.no_duplicates());
    tiles.unique_seq_to_set();
    vstd::seq_lib::seq_to_set_is_finite(tiles);
    assert(tiles.to_set() =~= clearing_set(f, anchor, include_shore));
}

/// A non-owning view of a clearing: a reference to the field together with the
/// anchor coordinate the clearing is formed around. Nothing is owned or
/// cached; every query re-runs the traversal.
pub struct Clearing<'f, Ct, Cf> {
    /// The field the clearing lives on.
    pub field: &'f Field<Ct, Cf>,
    /// The anchor: an in-range tile with no neighboring mines.
    pub anchor_location: FieldCoordinates,
}

impl<'f, Ct, Cf> Clearing<'f, Ct, Cf> {
    /// The view's validity: the anchor addresses a tile and has no neighboring
    /// mines; `new` refuses anything else.
    pub open spec fn wf(&self) -> bool {
        &&& self.field.wf()
        &&& self.field.spec_in_range(self.anchor_location)
        &&& self.field.spec_neighbor_mines(
            self.anchor_location.0 as int,
            self.anchor_location.1 as int,
        ) == 0
    }

    /// Returns a clearing view on the field, or `None` if the location is out
    /// of bounds or has one or more neighboring mines.
    pub fn new(field: &'f Field<Ct, Cf>, anchor_location: FieldCoordinates) -> (r: Option<Self>)
        requires
            field.wf(),
        ensures
            match r {
                Some(cl) => cl.field == field && cl.anchor_location == anchor_location && cl.wf(),
                None => !(field.spec_in_range(anchor_location) && field.spec_neighbor_mines(
                    anchor_location.0 as int,
                    anchor_location.1 as int,
                ) == 0),
            },
    {
        match field.get(anchor_location) {
            Some(_) => {
                if field.count_neighboring_mines(anchor_location) > 0 {
                    None
                } else {
                    Some(Clearing { field, anchor_location })
                }
            },
            None => None,
        }
    }

    /// Returns the field on which this clearing is located.
    pub fn field(&self) -> (r: &'f Field<Ct, Cf>)
        ensures
            r == self.field,
    {
        self.field
    }

    /// Returns the location around which this clearing is formed: the one used
    /// during creation.
    pub fn anchor_location(&self) -> (r: FieldCoordinates)
        ensures
            r == self.anchor_location,
    {
        self.anchor_location
    }

    /// Enumerates every tile inside the clearing, the anchor first and each
    /// tile exactly once; with `include_shore` the bordering numbered tiles are
    /// included.
    pub fn tiles(&self, include_shore: bool) -> (out: Vec<FieldCoordinates>)
        requires
            self.wf(),
        ensures
            out@.len() >= 1,
            out@[0] == self.anchor_location,
            forall|i: int, j: int| 0 <= i < j < out@.len() ==> out@[i] != out@[j],
            forall|i: int| 0 <= i < out@.len() ==> self.field.spec_in_range(#[trigger] out@[i]),
            forall|i: int|
                0 < i < out@.len() ==> eligible(self.field, #[trigger] out@[i], include_shore),
            forall|c: FieldCoordinates| #[trigger]
                out@.contains(c) <==> in_clearing(
                    self.field,
                    self.anchor_location,
                    include_shore,
                    c,
                ),
    {
        clearing_tiles(self.field, self.anchor_location, include_shore)
    }

    /// Returns the size of the clearing in tiles, optionally counting the
    /// shore; a clearing always holds at least its anchor.
    pub fn size(&self, include_shore: bool) -> (r: usize)
        requires
            self.wf(),
        ensures
            r >= 1,
            r as int == clearing_set(self.field, self.anchor_location, include_shore).len(),
    {
        let tiles = self.tiles(include_shore);
        proof {
            lemma_enumeration_counts_set(self.field, self.anchor_location, include_shore, tiles@);
        }
        tiles.len()
    }

    /// Returns `true` exactly when the given tile lies inside the clearing,
    /// optionally counting the shore as inside.
    pub fn includes(&self, coordinates: FieldCoordinates, include_shore: bool) -> (r: bool)
        requires
            self.wf(),
        ensures
            r == in_clearing(self.field, self.anchor_location, include_shore, coordinates),
    {
        let tiles = self.tiles(include_shore);
        let len = tiles.len();
        let mut i: usize = 0;
        while i < len
            invariant
                i <= len,
                len == tiles@.len(),
                forall|j: int| 0 <= j < i ==> tiles@[j] != coordinates,
                forall|c: FieldCoordinates| #[trigger]
                    tiles@.contains(c) <==> in_clearing(
                        self.field,
                        self.anchor_location,
                        include_shore,
                        c,
                    ),
            decreases len - i,
        {
            let t = tiles[i];
            if t.0 == coordinates.0 && t.1 == coordinates.1 {
                proof {
                    assert(tiles@.contains(coordinates));
                }
                return true;
            }
            i += 1;
        }
        proof {
            if tiles@.contains(coordinates) {
                let j = choose|j: int| 0 <= j < tiles@.len() && tiles@[j] == coordinates;
                assert(false);
            }
        }
        false
    }
}

/// An exclusive view of a clearing: the anchor coordinate of a region that is
/// about to be opened. The field itself is passed to each operation, so the
/// borrow lasts no longer than the call.
#[derive(Clone, Copy)]
pub struct ClearingMut {
    /// The anchor: an in-range tile with no neighboring mines.
    pub anchor_location: FieldCoordinates,
}

impl ClearingMut {
    /// The view's validity against a field: the anchor addresses a tile and
    /// has no neighboring mines there.
    pub open spec fn valid_for<Ct, Cf>(&self, field: &Field<Ct, Cf>) -> bool {
        &&& field.wf()
        &&& field.spec_in_range(self.anchor_location)
        &&& field.spec_neighbor_mines(
            self.anchor_location.0 as int,
            self.anchor_location.1 as int,
        ) == 0
    }

    /// Returns an exclusive clearing view on the field, or `None` if the
    /// location is out of bounds or has one or more neighboring mines.
    pub fn new<Ct, Cf>(field: &Field<Ct, Cf>, anchor_location: FieldCoordinates) -> (r: Option<
        Self,
    >)
        requires
            field.wf(),
        ensures
            match r {
                Some(cl) => cl.anchor_location == anchor_location && cl.valid_for(field),
                None => !(field.spec_in_range(anchor_location) && field.spec_neighbor_mines(
                    anchor_location.0 as int,
                    anchor_location.1 as int,
                ) == 0),
            },
    {
        match field.get(anchor_location) {
            Some(_) => {
                if field.count_neighboring_mines(anchor_location) > 0 {
                    None
                } else {
                    Some(ClearingMut { anchor_location })
                }
            },
            None => None,
        }
    }

    /// Returns the location around which this clearing is formed.
    pub fn anchor_location(&self) -> (r: FieldCoordinates)
        ensures
            r == self.anchor_location,
    {
        self.anchor_location
    }

    /// Enumerates every tile inside the clearing, exactly as the shared view
    /// does.
    pub fn tiles<Ct, Cf>(&self, field: &Field<Ct, Cf>, include_shore: bool) -> (out: Vec<
        FieldCoordinates,
    >)
        requires
            self.valid_for(field),
        ensures
            out@.len() >= 1,
            out@[0] == self.anchor_location,
            forall|i: int, j: int| 0 <= i < j < out@.len() ==> out@[i] != out@[j],
            forall|i: int| 0 <= i < out@.len() ==> field.spec_in_range(#[trigger] out@[i]),
            forall|i: int|
                0 < i < out@.len() ==> eligible(field, #[trigger] out@[i], include_shore),
            forall|c: FieldCoordinates| #[trigger]
                out@.contains(c) <==> in_clearing(field, self.anchor_location, include_shore, c),
    {
        clearing_tiles(field, self.anchor_location, include_shore)
    }

    /// Returns the size of the clearing in tiles, optionally counting the
    /// shore.
    pub fn size<Ct, Cf>(&self, field: &Field<Ct, Cf>, include_shore: bool) -> (r: usize)
        requires
            self.valid_for(field),
        ensures
            r >= 1,
            r as int == clearing_set(field, self.anchor_location, include_shore).len(),
    {
        let tiles = self.tiles(field, include_shore);
        proof {
            lemma_enumeration_counts_set(field, self.anchor_location, include_shore, tiles@);
        }
        tiles.len()
    }

    /// Returns `true` exactly when the given tile lies inside the clearing.
    pub fn includes<Ct, Cf>(
        &self,
        field: &Field<Ct, Cf>,
        coordinates: FieldCoordinates,
        include_shore: bool,
    ) -> (r: bool)
        requires
            self.valid_for(field),
        ensures
            r == in_clearing(field, self.anchor_location, include_shore, coordinates),
    {
        let tiles = self.tiles(field, include_shore);
        let len = tiles.len();
        let mut i: usize = 0;
        while i < len
            invariant
                i <= len,
                len == tiles@.len(),
                forall|j: int| 0 <= j < i ==> tiles@[j] != coordinates,
                forall|c: FieldCoordinates| #[trigger]
                    tiles@.contains(c) <==> in_clearing(
                        field,
                        self.anchor_location,
                        include_shore,
                        c,
                    ),
            decreases len - i,
        {
            let t = tiles[i];
            if t.0 == coordinates.0 && t.1 == coordinates.1 {
                proof {
                    assert(tiles@.contains(coordinates));
                }
                return true;
            }
            i += 1;
        }
        proof {
            if tiles@.contains(coordinates) {
                let j = choose|j: int| 0 <= j < tiles@.len() && tiles@[j] == coordinates;
                assert(false);
            }
        }
        false
    }

    /// Fully opens the clearing: every visited tile that is still `ClosedEmpty`
    /// flips to `OpenEmpty` (shore tiles included when `include_shore` is set);
    /// nothing else changes. Returns `(opened, total)`: how many tiles were
    /// actually opened, and the total size of the clearing, which is at least 1
    /// because the anchor always counts.
    pub fn open<Ct, Cf>(&self, field: &mut Field<Ct, Cf>, include_shore: bool) -> (r: (
        usize,
        usize,
    ))
        requires
            self.valid_for(old(field)),
        ensures
            final(field).wf(),
            final(field).dimensions == old(field).dimensions,
            final(field).storage@.len() == old(field).storage@.len(),
            r.1 >= 1,
            r.1 as int == clearing_set(old(field), self.anchor_location, include_shore).len(),
            r.0 as int == closed_clearing_set(
                old(field),
                self.anchor_location,
                include_shore,
            ).len(),
            forall|c: FieldCoordinates|
                #![trigger final(field).state_at(c)]
                old(field).spec_in_range(c) ==> final(field).state_at(c) == (if in_clearing(
                    old(field),
                    self.anchor_location,
                    include_shore,
                    c,
                ) && old(field).state_at(c) is ClosedEmpty {
                    TileState::<Cf>::OpenEmpty
                } else {
                    old(field).state_at(c)
                }),
            forall|k: int|
                0 <= k < old(field).storage@.len() ==> final(field).storage@[k].payload == old(
                    field,
                ).storage@[k].payload,
    {
        let ghost f0 = *field;
        let tiles = clearing_tiles(field, self.anchor_location, include_shore);
        let total = tiles.len();
        let mut opened_count: usize = 0;
        let ghost mut opened_seq: Seq<FieldCoordinates> = Seq::empty();
        let width = field.dimensions.0;
        let height = field.dimensions.1;
        let area = field.storage.len();
        let mut i: usize = 0;
        while i < total
            invariant
                i <= total,
                total == tiles@.len(),
                f0.wf(),
                width == f0.dimensions.0,
                height == f0.dimensions.1,
                area == f0.storage@.len(),
                forall|k: int, l: int| 0 <= k < l < tiles@.len() ==> tiles@[k] != tiles@[l],
                forall|k: int| 0 <= k < tiles@.len() ==> f0.spec_in_range(#[trigger] tiles@[k]),
                forall|c: FieldCoordinates| #[trigger]
                    tiles@.contains(c) <==> in_clearing(
                        &f0,
                        self.anchor_location,
                        include_shore,
                        c,
                    ),
                field.wf(),
                field.dimensions == f0.dimensions,
                field.storage@.len() == f0.storage@.len(),
                forall|c: FieldCoordinates|
                    #![trigger field.state_at(c)]
                    f0.spec_in_range(c) ==> field.state_at(c) == (if tiles@.take(i as int).contains(
                        c,
                    ) && f0.state_at(c) is ClosedEmpty {
                        TileState::<Cf>::OpenEmpty
                    } else {
                        f0.state_at(c)
                    }),
                forall|k: int|
                    0 <= k < f0.storage@.len() ==> field.storage@[k].payload
                        == f0.storage@[k].payload,
                opened_count as int == opened_seq.len(),
                opened_count <= i,
                opened_seq.no_duplicates(),
                forall|c: FieldCoordinates| #[trigger]
                    opened_seq.contains(c) <==> (tiles@.take(i as int).contains(c) && f0.state_at(
                        c,
                    ) is ClosedEmpty),
            decreases total - i,
        {
            let d = tiles[i];
            proof {
                lemma_index_in_bounds(width as int, height as int, d.0 as int, d.1 as int);
                assert(!tiles@.take(i as int).contains(d));
            }
            let di = d.1 * width + d.0;
            let ghost prev = *field;
            if field.storage[di].state.is_required_to_open() {
                field.storage[di].state = TileState::OpenEmpty;
                opened_count += 1;
                proof {
                    assert(!opened_seq.contains(d));
                    let prev_opened = opened_seq;
                    opened_seq = opened_seq.push(d);
                    assert forall|k: int, l: int| 0 <= k < l < opened_seq.len() implies
                        opened_seq[k] != opened_seq[l] by {
                        if l < opened_seq.len() - 1 {
                            assert(opened_seq[k] == prev_opened[k]);
                            assert(opened_seq[l] == prev_opened[l]);
                        } else {
                            assert(opened_seq[l] == d);
                            assert(opened_seq[k] == prev_opened[k]);
                            assert(prev_opened.contains(prev_opened[k]));
                        }
                    }
                    assert(opened_seq.no_duplicates());
                }
            }
            i += 1;
            proof {
                assert forall|c: FieldCoordinates| f0.spec_in_range(c) implies field.state_at(c)
                    == (if tiles@.take(i as int).contains(c) && f0.state_at(c) is ClosedEmpty {
                    TileState::<Cf>::OpenEmpty
                } else {
                    f0.state_at(c)
                }) by {
                    lemma_index_in_bounds(width as int, height as int, c.0 as int, c.1 as int);
                    if f0.spec_index_of(c) == di as int {
                        lemma_index_injective(
                            width as int,
                            height as int,
                            c.0 as int,
                            c.1 as int,
                            d.0 as int,
                            d.1 as int,
                        );
                        assert(c == d);
                        assert(tiles@.take(i as int)[i - 1] == d);
                        assert(tiles@.take(i as int).contains(d));
                    } else {
                        assert(field.state_at(c) == prev.state_at(c));
                        if tiles@.take(i as int).contains(c) {
                            let j = choose|j: int|
                                0 <= j < i && tiles@.take(i as int)[j] == c;
                            if j < i - 1 {
                                assert(tiles@.take(i as int - 1)[j] == c);
                                assert(tiles@.take(i as int - 1).contains(c));
                            } else {
                                assert(c == d);
                            }
                        }
                    }
                }
                assert forall|c: FieldCoordinates| #[trigger]
                    opened_seq.contains(c) <==> (tiles@.take(i as int).contains(c) && f0.state_at(
                        c,
                    ) is ClosedEmpty) by {
                    if tiles@.take(i as int).contains(c) {
                        let j = choose|j: int| 0 <= j < i && tiles@.take(i as int)[j] == c;
                        if j < i - 1 {
                            assert(tiles@.take(i as int - 1)[j] == c);
                            assert(tiles@.take(i as int - 1).contains(c));
                        }
                    }
                }
            }
        }
        proof {
            assert(tiles@.take(total as int) =~= tiles@);
            lemma_enumeration_counts_set(&f0, self.anchor_location, include_shore, tiles@);
            assert(opened_seq.no_duplicates());
            opened_seq.unique_seq_to_set();
            vstd::seq_lib::seq_to_set_is_finite(opened_seq);
            assert(opened_seq.to_set() =~= closed_clearing_set(
                &f0,
                self.anchor_location,
                include_shore,
            ));
        }
        (opened_count, total)
    }
}

impl<Ct, Cf> Field<Ct, Cf> {
    /// Returns a shared clearing view anchored at the location, or `None` if
    /// the location is out of bounds or has one or more neighboring mines.
    pub fn clearing(&self, anchor_location: FieldCoordinates) -> (r: Option<Clearing<Ct, Cf>>)
        requires
            self.wf(),
        ensures
            match r {
                Some(cl) => cl.field == self && cl.anchor_location == anchor_location && cl.wf(),
                None => !(self.spec_in_range(anchor_location) && self.spec_neighbor_mines(
                    anchor_location.0 as int,
                    anchor_location.1 as int,
                ) == 0),
            },
    {
        Clearing::new(self, anchor_location)
    }

    /// Returns an exclusive clearing view anchored at the location, or `None`
    /// if the location is out of bounds or has one or more neighboring mines.
    pub fn clearing_mut(&mut self, anchor_location: FieldCoordinates) -> (r: Option<ClearingMut>)
        requires
            old(self).wf(),
        ensures
            *final(self) == *old(self),
            match r {
                Some(cl) => cl.anchor_location == anchor_location && cl.valid_for(old(self)),
                None => !(old(self).spec_in_range(anchor_location) && old(
                    self,
                ).spec_neighbor_mines(anchor_location.0 as int, anchor_location.1 as int) == 0),
            },
    {
        ClearingMut::new(self, anchor_location)
    }
}

} // verus!

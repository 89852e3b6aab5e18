use sweeper::ClickOutcome;
use sweeper::Clearing;
use sweeper::ClearingMut;
use sweeper::Field;
use sweeper::Flag;
use sweeper::TileState;

fn mine_at(field: &mut Field<(), ()>, c: (usize, usize)) {
    field.get_mut(c).unwrap().state = TileState::Mine(Flag::NotFlagged);
}

fn flag_at(field: &mut Field<(), ()>, c: (usize, usize)) {
    let tile = field.get_mut(c).unwrap();
    tile.state = match tile.state {
        TileState::ClosedEmpty(_) => TileState::ClosedEmpty(Flag::Flagged),
        TileState::Mine(_) => TileState::Mine(Flag::Flagged),
        other => other,
    };
}

/// A 3x3 field with a single mine in its upper-right corner (rows above have
/// the larger row index).
fn corner_mine_field() -> Field<(), ()> {
    let mut field = Field::<(), ()>::empty((3, 3));
    mine_at(&mut field, (2, 2));
    field
}

#[test]
fn peek_resolves_without_mutating() {
    let field = corner_mine_field();
    assert_eq!(field.peek((0, 0)), Some(ClickOutcome::OpenClearing));
    assert_eq!(field.peek((1, 1)), Some(ClickOutcome::OpenNumber(1)));
    assert_eq!(field.peek((2, 2)), Some(ClickOutcome::Explosion));
    assert_eq!(field.peek((3, 0)), None);
    assert_eq!(field.count_open_tiles(), 0);
}

#[test]
fn open_opens_exactly_one_tile() {
    let mut field = corner_mine_field();
    assert_eq!(field.open((1, 1)), Some(ClickOutcome::OpenNumber(1)));
    assert!(matches!(field.get((1, 1)).unwrap().state, TileState::OpenNumber(1)));
    assert_eq!(field.count_open_tiles(), 1);
    assert_eq!(field.open((0, 0)), Some(ClickOutcome::OpenClearing));
    assert!(matches!(field.get((0, 0)).unwrap().state, TileState::OpenEmpty));
    // No cascade: only the two clicked tiles are open.
    assert_eq!(field.count_open_tiles(), 2);
    assert_eq!(field.open((4, 4)), None);
}

#[test]
fn open_leaves_mines_and_flags_alone() {
    let mut field = corner_mine_field();
    flag_at(&mut field, (0, 0));
    assert_eq!(field.open((2, 2)), Some(ClickOutcome::Explosion));
    assert!(field.get((2, 2)).unwrap().is_mine());
    assert_eq!(field.open((0, 0)), Some(ClickOutcome::OpenClearing));
    // A flagged closed tile still resolves and opens; the flag is dropped with
    // the closed state.
    assert!(field.get((0, 0)).unwrap().is_open());
}

#[test]
fn open_is_idempotent_on_open_tiles() {
    let mut field = corner_mine_field();
    assert_eq!(field.open((1, 1)), Some(ClickOutcome::OpenNumber(1)));
    let snapshot: Vec<TileState<()>> =
        (0..3).flat_map(|y| (0..3).map(move |x| (x, y))).map(|c| field.get(c).unwrap().state).collect();
    // Opening an open number tile reports a chord and changes nothing.
    assert_eq!(field.open((1, 1)), Some(ClickOutcome::Chord));
    assert_eq!(field.open((1, 1)), Some(ClickOutcome::Chord));
    let mut field2 = field;
    assert_eq!(field2.open((0, 0)), Some(ClickOutcome::OpenClearing));
    // Opening an open empty tile reports the clearing again and changes nothing.
    assert_eq!(field2.open((0, 0)), Some(ClickOutcome::OpenClearing));
    let after: Vec<TileState<()>> =
        (0..3).flat_map(|y| (0..3).map(move |x| (x, y))).map(|c| field2.get(c).unwrap().state).collect();
    for (i, (a, b)) in snapshot.iter().zip(after.iter()).enumerate() {
        if i != 0 {
            // Every tile but the separately opened corner kept its exact state.
            assert!(matches!(
                (a, b),
                (TileState::ClosedEmpty(_), TileState::ClosedEmpty(_))
                    | (TileState::OpenEmpty, TileState::OpenEmpty)
                    | (TileState::OpenNumber(_), TileState::OpenNumber(_))
                    | (TileState::Mine(_), TileState::Mine(_))
            ));
        }
    }
}

#[test]
fn clearing_enumerates_the_zero_region() {
    let field = corner_mine_field();
    let clearing = Clearing::new(&field, (0, 0)).unwrap();
    assert_eq!(clearing.anchor_location(), (0, 0));
    // The five zero-count tiles form the clearing; the three numbered
    // neighbors join only as shore.
    assert_eq!(clearing.size(false), 5);
    assert_eq!(clearing.size(true), 8);
    assert!(clearing.includes((2, 0), false));
    assert!(!clearing.includes((1, 1), false));
    assert!(clearing.includes((1, 1), true));
    assert!(!clearing.includes((2, 2), true));
}

#[test]
fn clearing_without_shore_holds_no_numbered_tile() {
    let field = corner_mine_field();
    let clearing = Clearing::new(&field, (0, 0)).unwrap();
    for c in clearing.tiles(false) {
        assert_eq!(field.count_neighboring_mines(c), 0);
    }
    for c in clearing.tiles(true) {
        assert!(!field.get(c).unwrap().is_mine());
    }
}

#[test]
fn clearing_rejects_bad_anchors() {
    let field = corner_mine_field();
    assert!(Clearing::new(&field, (1, 1)).is_none());
    assert!(Clearing::new(&field, (5, 5)).is_none());
    assert!(ClearingMut::new(&field, (1, 1)).is_none());
}

#[test]
fn clearing_open_flips_the_region() {
    let mut field = corner_mine_field();
    let cm = ClearingMut::new(&field, (0, 0)).unwrap();
    let (opened, total) = cm.open(&mut field, true);
    assert_eq!(opened, 8);
    assert_eq!(total, 8);
    assert_eq!(field.count_open_tiles(), 8);
    assert!(field.solved());
    // Opening again finds nothing closed; the size is unchanged.
    let cm = ClearingMut::new(&field, (0, 0)).unwrap();
    let (opened_again, total_again) = cm.open(&mut field, true);
    assert_eq!(opened_again, 0);
    assert_eq!(total_again, 8);
}

#[test]
fn clearing_mut_queries_match_the_shared_view() {
    let field = corner_mine_field();
    let cm = ClearingMut::new(&field, (0, 0)).unwrap();
    assert_eq!(cm.anchor_location(), (0, 0));
    assert_eq!(cm.size(&field, false), 5);
    assert_eq!(cm.size(&field, true), 8);
    assert!(cm.includes(&field, (2, 0), false));
    assert!(!cm.includes(&field, (1, 1), false));
    assert!(cm.includes(&field, (1, 1), true));
    assert!(!cm.includes(&field, (2, 2), true));
    let tiles = cm.tiles(&field, false);
    assert_eq!(tiles.len(), 5);
    assert_eq!(tiles[0], (0, 0));
}

#[test]
fn flag_counting_matches_the_placed_flags() {
    let mut field = corner_mine_field();
    flag_at(&mut field, (2, 2));
    flag_at(&mut field, (0, 0));
    assert_eq!(field.count_neighboring_flags((1, 1)), 2);
    assert_eq!(field.count_neighboring_flags((0, 0)), 0);
    assert_eq!(field.count_neighboring_flags((1, 0)), 1);
    // A custom marker is not a flag for chording purposes.
    field.get_mut((0, 1)).unwrap().state = TileState::ClosedEmpty(Flag::Custom(()));
    assert_eq!(field.count_neighboring_flags((1, 1)), 2);
}

#[test]
fn chord_fires_only_on_exact_flag_match() {
    // The scenario: a single mine at the corner, the center opened to a 1.
    let mut field = corner_mine_field();
    assert_eq!(field.open((1, 1)), Some(ClickOutcome::OpenNumber(1)));

    // No flags placed: the chord does not fire and reports all Nothing.
    let outcome = field.chord((1, 1));
    assert_eq!(outcome, [ClickOutcome::Nothing; 8]);
    assert_eq!(field.count_open_tiles(), 1);

    // Over-flagging also keeps the chord from firing.
    flag_at(&mut field, (2, 2));
    flag_at(&mut field, (0, 0));
    let outcome = field.chord((1, 1));
    assert_eq!(outcome, [ClickOutcome::Nothing; 8]);
    assert_eq!(field.count_open_tiles(), 1);

    // With exactly one flag on the mine the chord fires: every unflagged
    // neighbor opens and reports a non-Nothing outcome.
    field.get_mut((0, 0)).unwrap().state = TileState::ClosedEmpty(Flag::NotFlagged);
    let outcome = field.chord((1, 1));
    // Clockwise from up-left of (1, 1), where up means the larger row index:
    // (0,2) (1,2) (2,2) (2,1) (2,0) (1,0) (0,0) (0,1).
    assert_eq!(outcome[0], ClickOutcome::OpenClearing);
    assert_eq!(outcome[1], ClickOutcome::OpenNumber(1));
    assert_eq!(outcome[2], ClickOutcome::Nothing);
    assert_eq!(outcome[3], ClickOutcome::OpenNumber(1));
    assert_eq!(outcome[4], ClickOutcome::OpenClearing);
    assert_eq!(outcome[5], ClickOutcome::OpenClearing);
    assert_eq!(outcome[6], ClickOutcome::OpenClearing);
    assert_eq!(outcome[7], ClickOutcome::OpenClearing);
    // The seven unflagged neighbors opened; the flagged mine did not.
    assert_eq!(field.count_open_tiles(), 8);
    assert!(field.get((2, 2)).unwrap().is_mine());
}

#[test]
fn chord_ignores_non_number_tiles() {
    let mut field = corner_mine_field();
    assert_eq!(field.chord((0, 0)), [ClickOutcome::Nothing; 8]);
    assert_eq!(field.chord((2, 2)), [ClickOutcome::Nothing; 8]);
    assert_eq!(field.chord((9, 9)), [ClickOutcome::Nothing; 8]);
    assert_eq!(field.count_open_tiles(), 0);
}

#[test]
fn recursive_chord_records_each_tile_once() {
    let mut field = corner_mine_field();
    field.open((1, 1));
    flag_at(&mut field, (2, 2));
    let outcomes = field.recursive_chord((1, 1));
    assert!(!outcomes.is_empty());
    assert_eq!(outcomes[0].0, (1, 1));
    // The first chord fired: its record is not all Nothing.
    assert_ne!(outcomes[0].1, [ClickOutcome::Nothing; 8]);
    // No coordinate is ever chorded twice, so no coordinate can report two
    // different outcomes for the same board state.
    for (i, (c, _)) in outcomes.iter().enumerate() {
        for (j, (d, _)) in outcomes.iter().enumerate() {
            if i != j {
                assert_ne!(c, d);
            }
        }
    }
    // Everything but the mine has been opened by the cascade.
    assert_eq!(field.count_open_tiles(), 8);
}

#[test]
fn recursive_chord_cascades_through_newly_exposed_numbers() {
    // Two flagged mines on a 5x5 board: chording the first number exposes a
    // second number whose own flag count already matches, so the driver keeps
    // chording outward.
    let mut field = Field::<(), ()>::empty((5, 5));
    mine_at(&mut field, (0, 0));
    mine_at(&mut field, (3, 3));
    flag_at(&mut field, (0, 0));
    flag_at(&mut field, (3, 3));
    assert_eq!(field.open((1, 1)), Some(ClickOutcome::OpenNumber(1)));

    let outcomes = field.recursive_chord((1, 1));
    assert_eq!(outcomes[0].0, (1, 1));
    assert_ne!(outcomes[0].1, [ClickOutcome::Nothing; 8]);
    // The tile diagonally between the mines was exposed as a number and then
    // chorded in turn, firing again.
    let fired_at_heart = outcomes
        .iter()
        .any(|(c, o)| *c == (2, 2) && *o != [ClickOutcome::Nothing; 8]);
    assert!(fired_at_heart);
    assert!(field.get((2, 2)).unwrap().is_open());
    // The mines themselves stay closed and flagged.
    assert!(field.get((0, 0)).unwrap().is_mine());
    assert!(field.get((3, 3)).unwrap().is_mine());
    assert!(field.get((0, 0)).unwrap().state.is_flagged());
    // The cascade opened more than the first chord's own ring.
    assert!(field.count_open_tiles() > 8);
}

#[test]
fn recursive_chord_out_of_range_is_empty() {
    let mut field = corner_mine_field();
    let outcomes = field.recursive_chord((7, 7));
    assert!(outcomes.is_empty());
    assert_eq!(field.count_open_tiles(), 0);
}

#[test]
fn calculate_3bv_counts_single_clearing_as_one_click() {
    let field = Field::<(), ()>::empty((1, 1));
    assert_eq!(field.calculate_3bv(), 1);

    let field = corner_mine_field();
    assert_eq!(field.calculate_3bv(), 1);
}

#[test]
fn calculate_3bv_of_a_mine_free_field_is_one() {
    let field = Field::<(), ()>::empty((4, 3));
    assert_eq!(field.calculate_3bv(), 1);
}

#[test]
fn calculate_3bv_of_all_mines_is_zero() {
    let mut field = Field::<(), ()>::empty((2, 2));
    for y in 0..2 {
        for x in 0..2 {
            mine_at(&mut field, (x, y));
        }
    }
    assert_eq!(field.calculate_3bv(), 0);
}

#[test]
fn calculate_3bv_counts_isolated_numbers() {
    // A 1x3 strip with the mine in the middle: both ends are numbered tiles
    // with no clearing anywhere, so each costs its own click.
    let mut field = Field::<(), ()>::empty((1, 3));
    mine_at(&mut field, (0, 1));
    assert_eq!(field.calculate_3bv(), 2);
}

#[test]
fn calculate_3bv_resets_partially_played_grids() {
    let mut field = corner_mine_field();
    field.open((1, 1));
    field.open((0, 0));
    assert_eq!(field.calculate_3bv(), 1);
}

#[test]
fn populate_fills_the_only_free_tile() {
    let mut field = Field::<(), ()>::empty((1, 1));
    field.populate(1, None);
    assert_eq!(field.is_mine((0, 0)), Some(true));
}

#[test]
fn populate_never_mines_the_safe_spot() {
    for _ in 0..32 {
        let mut field = Field::<(), ()>::empty((2, 1));
        field.populate(1, Some((0, 0)));
        assert_eq!(field.is_mine((0, 0)), Some(false));
        assert_eq!(field.is_mine((1, 0)), Some(true));
    }
}

#[test]
fn populate_zero_mines_changes_nothing() {
    let mut field = Field::<(), ()>::empty((3, 3));
    field.populate(0, Some((1, 1)));
    assert_eq!(field.count_closed_tiles(), 9);
    for y in 0..3 {
        for x in 0..3 {
            assert_eq!(field.is_mine((x, y)), Some(false));
        }
    }
}

#[test]
fn populate_scatters_the_requested_draws() {
    let mut field = Field::<(), ()>::empty((8, 8));
    field.populate(16, Some((4, 4)));
    let mut mines = 0;
    for y in 0..8 {
        for x in 0..8 {
            if field.get((x, y)).unwrap().is_mine() {
                mines += 1;
            }
        }
    }
    // Draws may collide, but at least one distinct mine must land and never
    // more than the number of draws.
    assert!(mines >= 1 && mines <= 16);
    assert_eq!(field.is_mine((4, 4)), Some(false));
}

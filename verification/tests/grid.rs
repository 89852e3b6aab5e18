use sweeper::ClickOutcome;
use sweeper::Field;
use sweeper::Flag;
use sweeper::Tile;
use sweeper::TileState;

fn mine_at(field: &mut Field<(), ()>, c: (usize, usize)) {
    field.get_mut(c).unwrap().state = TileState::Mine(Flag::NotFlagged);
}

#[test]
fn empty_field_is_fully_closed() {
    let field = Field::<(), ()>::empty((4, 3));
    assert_eq!(field.dimensions(), (4, 3));
    assert_eq!(field.count_closed_tiles(), 12);
    assert_eq!(field.count_open_tiles(), 0);
    assert_eq!(field.tiles_to_open(), 12);
    assert!(!field.solved());
    for y in 0..3 {
        for x in 0..4 {
            let tile = field.get((x, y)).unwrap();
            assert!(tile.is_closed());
            assert!(tile.is_required_to_open());
            assert!(!tile.is_mine());
        }
    }
}

#[test]
fn from_storage_accepts_matching_length() {
    let mut storage: Vec<Tile<(), ()>> = Vec::new();
    for _ in 0..6 {
        storage.push(Tile { state: TileState::ClosedEmpty(Flag::NotFlagged), payload: () });
    }
    let field = Field::from_dimensions_and_storage((3, 2), storage).unwrap();
    assert_eq!(field.dimensions(), (3, 2));
    assert_eq!(field.count_closed_tiles(), 6);
}

#[test]
fn from_storage_rejects_wrong_length() {
    let mut storage: Vec<Tile<(), ()>> = Vec::new();
    for _ in 0..5 {
        storage.push(Tile { state: TileState::ClosedEmpty(Flag::NotFlagged), payload: () });
    }
    assert!(Field::from_dimensions_and_storage((3, 2), storage).is_none());
}

#[test]
fn from_storage_rejects_zero_dimension() {
    let storage: Vec<Tile<(), ()>> = Vec::new();
    assert!(Field::from_dimensions_and_storage((0, 2), storage).is_none());
}

#[test]
fn get_and_get_mut_agree_everywhere() {
    let mut field = Field::<(), ()>::empty((3, 2));
    mine_at(&mut field, (2, 1));
    for y in 0..4 {
        for x in 0..4 {
            let present = field.get((x, y)).map(|t| t.state.is_mine());
            let present_mut = field.get_mut((x, y)).map(|t| t.state.is_mine());
            assert_eq!(present, present_mut);
            assert_eq!(present.is_some(), x < 3 && y < 2);
        }
    }
    // The exactly-out-of-bounds coordinates are out of range.
    assert!(field.get((3, 0)).is_none());
    assert!(field.get((0, 2)).is_none());
}

#[test]
fn neighbor_counts_never_include_the_tile_itself() {
    let mut field = Field::<(), ()>::empty((3, 3));
    mine_at(&mut field, (2, 2));
    assert_eq!(field.count_neighboring_mines((1, 1)), 1);
    assert_eq!(field.count_neighboring_mines((2, 1)), 1);
    assert_eq!(field.count_neighboring_mines((2, 2)), 0);
    assert_eq!(field.count_neighboring_mines((0, 0)), 0);
}

#[test]
fn neighbor_counts_stay_within_range() {
    let mut field = Field::<(), ()>::empty((3, 3));
    for y in 0..3 {
        for x in 0..3 {
            mine_at(&mut field, (x, y));
        }
    }
    assert_eq!(field.count_neighboring_mines((1, 1)), 8);
    assert_eq!(field.count_neighboring_mines((0, 0)), 3);
    assert_eq!(field.count_neighboring_mines((1, 0)), 5);
    for y in 0..3 {
        for x in 0..3 {
            assert!(field.count_neighboring_mines((x, y)) <= 8);
        }
    }
}

#[test]
fn is_mine_reports_out_of_range_as_absent() {
    let mut field = Field::<(), ()>::empty((2, 2));
    mine_at(&mut field, (1, 0));
    assert_eq!(field.is_mine((1, 0)), Some(true));
    assert_eq!(field.is_mine((0, 0)), Some(false));
    assert_eq!(field.is_mine((2, 0)), None);
    assert_eq!(field.is_mine((0, 2)), None);
}

#[test]
fn tile_state_predicates() {
    let closed: TileState<()> = TileState::ClosedEmpty(Flag::NotFlagged);
    let open_empty: TileState<()> = TileState::OpenEmpty;
    let number: TileState<()> = TileState::OpenNumber(3);
    let mine: TileState<()> = TileState::Mine(Flag::Flagged);

    assert!(closed.is_closed() && !closed.is_open() && closed.is_required_to_open());
    assert!(open_empty.is_open() && !open_empty.is_closed());
    assert!(number.is_open() && !number.is_required_to_open());
    assert!(mine.is_closed() && mine.is_mine() && !mine.is_safe());
    assert!(closed.is_safe() && open_empty.is_safe() && number.is_safe());

    assert!(!closed.is_flagged());
    assert!(mine.is_flagged());
    let custom: TileState<u8> = TileState::ClosedEmpty(Flag::Custom(7));
    assert!(!custom.is_flagged());
    assert!(matches!(custom.flag_state(), Some(Flag::Custom(7))));
    assert!(matches!(open_empty.flag_state(), None));
}

#[test]
fn tile_state_peek_local() {
    let closed: TileState<()> = TileState::ClosedEmpty(Flag::NotFlagged);
    let open_empty: TileState<()> = TileState::OpenEmpty;
    let number: TileState<()> = TileState::OpenNumber(2);
    let mine: TileState<()> = TileState::Mine(Flag::NotFlagged);
    assert_eq!(closed.peek_local(), None);
    assert_eq!(open_empty.peek_local(), Some(ClickOutcome::OpenClearing));
    assert_eq!(number.peek_local(), Some(ClickOutcome::Chord));
    assert_eq!(mine.peek_local(), Some(ClickOutcome::Explosion));
}

#[test]
fn tile_state_equality_is_a_hazard_partition() {
    let mine_flagged: TileState<()> = TileState::Mine(Flag::Flagged);
    let mine_plain: TileState<()> = TileState::Mine(Flag::NotFlagged);
    let closed: TileState<()> = TileState::ClosedEmpty(Flag::Flagged);
    let open_empty: TileState<()> = TileState::OpenEmpty;
    let number: TileState<()> = TileState::OpenNumber(5);

    assert_eq!(mine_flagged, mine_plain);
    assert_eq!(closed, open_empty);
    assert_eq!(closed, number);
    assert_eq!(open_empty, number);
    assert_ne!(mine_plain, closed);
    assert_ne!(open_empty, mine_flagged);
}

#[test]
fn tile_wraps_its_state() {
    let tile: Tile<u32, ()> = Tile { state: TileState::Mine(Flag::NotFlagged), payload: 9 };
    assert!(tile.is_mine() && tile.is_closed() && !tile.is_safe());
    assert_eq!(tile.peek_local(), Some(ClickOutcome::Explosion));
    let from_state: Tile<u32, ()> = Tile::from_state(TileState::OpenEmpty);
    assert!(from_state.is_open());
    assert_eq!(from_state.payload, 0);
    let default_tile: Tile<u32, ()> = Tile::default();
    assert!(default_tile.is_required_to_open());
}

#[test]
fn row_cursor_walks_a_row() {
    let mut field = Field::<(), ()>::empty((3, 2));
    mine_at(&mut field, (2, 1));
    let mut row = field.row(1);
    assert_eq!(row.len(), 3);
    assert!(!row.next().unwrap().is_mine());
    assert!(!row.next().unwrap().is_mine());
    assert!(row.next().unwrap().is_mine());
    assert!(row.next().is_none());
    assert!(row.get(2).unwrap().is_mine());
    assert!(row.get(3).is_none());
    assert!(row.column(2).is_mine());
    assert_eq!(row.field().dimensions(), (3, 2));
}

#[test]
fn column_cursor_walks_a_column() {
    let mut field = Field::<(), ()>::empty((2, 3));
    mine_at(&mut field, (1, 2));
    let mut column = field.column(1);
    assert_eq!(column.len(), 3);
    assert!(!column.next().unwrap().is_mine());
    assert!(!column.next().unwrap().is_mine());
    assert!(column.next().unwrap().is_mine());
    assert!(column.next().is_none());
    assert!(column.get(2).unwrap().is_mine());
    assert!(column.get(3).is_none());
    assert!(column.row(2).is_mine());
}

#[test]
fn rows_and_columns_cursors_cover_the_field() {
    let mut field = Field::<(), ()>::empty((3, 2));
    mine_at(&mut field, (0, 1));
    let mut rows = field.rows();
    let mut row_with_mine = None;
    let mut y = 0;
    while let Some(mut row) = rows.next() {
        while let Some(tile) = row.next() {
            if tile.is_mine() {
                row_with_mine = Some(y);
            }
        }
        y += 1;
    }
    assert_eq!(y, 2);
    assert_eq!(row_with_mine, Some(1));

    let mut columns = field.columns();
    let mut column_with_mine = None;
    let mut x = 0;
    while let Some(mut column) = columns.next() {
        while let Some(tile) = column.next() {
            if tile.is_mine() {
                column_with_mine = Some(x);
            }
        }
        x += 1;
    }
    assert_eq!(x, 3);
    assert_eq!(column_with_mine, Some(0));
}

#[test]
fn default_values() {
    let flag: Flag<()> = Flag::default();
    assert!(matches!(flag, Flag::NotFlagged));
    let state: TileState<()> = TileState::default();
    assert!(matches!(state, TileState::ClosedEmpty(Flag::NotFlagged)));
    let outcome = ClickOutcome::default();
    assert_eq!(outcome, ClickOutcome::Nothing);
}

#[test]
fn counts_track_openings() {
    let mut field = Field::<(), ()>::empty((2, 2));
    mine_at(&mut field, (1, 1));
    field.open((0, 0));
    assert_eq!(field.count_open_tiles(), 1);
    assert_eq!(field.count_closed_tiles(), 3);
    assert_eq!(field.tiles_to_open(), 2);
    assert!(!field.solved());
    field.open((1, 0));
    field.open((0, 1));
    assert_eq!(field.tiles_to_open(), 0);
    assert!(field.solved());
}

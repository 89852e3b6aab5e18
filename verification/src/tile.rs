//! The per-tile state machine: tile states, flags, and the outcome of a click.

use vstd::prelude::*;

verus! {

/// The state of a flag on a closed tile.
#[derive(Clone, Copy, Debug, PartialEq, Eq)]
pub enum Flag<Cf> {
    /// The player has not marked this tile yet.
    NotFlagged,
    /// The player is sure that the tile this flag is applied to contains a mine.
    Flagged,
    /// A nonstandard marker, as specified by the front end.
    Custom(Cf),
}

impl<Cf> Flag<Cf> {
    /// Whether this flag is exactly the `Flagged` marker; a custom marker does
    /// not count.
    pub open spec fn spec_is_flagged(&self) -> bool {
        self is Flagged
    }
}

impl<Cf> Default for Flag<Cf> {
    /// Returns the `NotFlagged` state.
    fn default() -> (r: Self)
        ensures
            r is NotFlagged,
    {
        Flag::NotFlagged
    }
}

/// The event produced after clicking a tile.
#[derive(Clone, Copy, Debug, PartialEq, Eq, Structural)]
pub enum ClickOutcome {
    /// Nothing happens.
    Nothing,
    /// A clearing is opened; a single numberless tile still counts as a clearing.
    OpenClearing,
    /// An empty tile with a number is opened; the payload is the neighboring
    /// mine count, between 1 and 8.
    OpenNumber(u8),
    /// A chord operation is invoked; produced by an already-open number tile.
    Chord,
    /// An explosion is triggered, ending the game; produced by a mine.
    Explosion,
}

impl Default for ClickOutcome {
    /// Returns the `Nothing` variant.
    fn default() -> (r: Self)
        ensures
            r is Nothing,
    {
        ClickOutcome::Nothing
    }
}

/// The state of a tile.
#[derive(Clone, Copy, Debug)]
pub enum TileState<Cf> {
    /// Unopened and empty, with its flag marker.
    ClosedEmpty(Flag<Cf>),
    /// Opened, with no neighboring mines.
    OpenEmpty,
    /// Opened, with neighboring mines; the payload is their count, 1 to 8.
    OpenNumber(u8),
    /// A mine, with its flag marker.
    Mine(Flag<Cf>),
}

impl<Cf> TileState<Cf> {
    /// Whether the tile is still closed.
    pub open spec fn spec_is_closed(&self) -> bool {
        self is ClosedEmpty || self is Mine
    }

    /// Whether the tile has been opened.
    pub open spec fn spec_is_open(&self) -> bool {
        self is OpenEmpty || self is OpenNumber
    }

    /// Whether the tile holds a mine.
    pub open spec fn spec_is_mine(&self) -> bool {
        self is Mine
    }

    /// Whether the tile must be opened for the game to be won.
    pub open spec fn spec_is_required_to_open(&self) -> bool {
        self is ClosedEmpty
    }

    /// The flag marker carried by the tile, if it can carry one.
    pub open spec fn spec_flag_state(&self) -> Option<Flag<Cf>> {
        match *self {
            TileState::ClosedEmpty(f) => Some(f),
            TileState::Mine(f) => Some(f),
            _ => None,
        }
    }

    /// Whether the tile carries exactly the `Flagged` marker.
    pub open spec fn spec_is_flagged(&self) -> bool {
        match *self {
            TileState::ClosedEmpty(f) => f is Flagged,
            TileState::Mine(f) => f is Flagged,
            _ => false,
        }
    }

    /// The click outcome determined by this tile alone, or `None` if the
    /// outcome needs the surrounding field (a closed empty tile resolves to a
    /// clearing or a number only once its neighbors are counted).
    pub open spec fn spec_peek_local(&self) -> Option<ClickOutcome> {
        match *self {
            TileState::ClosedEmpty(_) => None,
            TileState::OpenEmpty => Some(ClickOutcome::OpenClearing),
            TileState::OpenNumber(_) => Some(ClickOutcome::Chord),
            TileState::Mine(_) => Some(ClickOutcome::Explosion),
        }
    }

    /// Returns `true` if the tile is closed, `false` otherwise.
    #[verifier::when_used_as_spec(spec_is_closed)]
    pub fn is_closed(&self) -> (r: bool)
        ensures
            r == self.spec_is_closed(),
    {
        match self {
            TileState::ClosedEmpty(_) => true,
            TileState::Mine(_) => true,
            _ => false,
        }
    }

    /// Returns `true` if the tile is open, `false` otherwise.
    #[verifier::when_used_as_spec(spec_is_open)]
    pub fn is_open(&self) -> (r: bool)
        ensures
            r == self.spec_is_open(),
    {
        match self {
            TileState::OpenEmpty => true,
            TileState::OpenNumber(_) => true,
            _ => false,
        }
    }

    /// Returns `true` if the tile contains a mine, `false` otherwise.
    #[verifier::when_used_as_spec(spec_is_mine)]
    pub fn is_mine(&self) -> (r: bool)
        ensures
            r == self.spec_is_mine(),
    {
        match self {
            TileState::Mine(_) => true,
            _ => false,
        }
    }

    /// Returns `true` if clicking this tile does not end the game.
    pub fn is_safe(&self) -> (r: bool)
        ensures
            r == !self.spec_is_mine(),
    {
        !self.is_mine()
    }

    /// Returns `true` if this tile has to be clicked in order for the game to
    /// successfully end: only `ClosedEmpty` tiles qualify.
    #[verifier::when_used_as_spec(spec_is_required_to_open)]
    pub fn is_required_to_open(&self) -> (r: bool)
        ensures
            r == self.spec_is_required_to_open(),
    {
        match self {
            TileState::ClosedEmpty(_) => true,
            _ => false,
        }
    }

    /// Returns the flag installed on this tile, or `None` if the tile is open
    /// and thus cannot hold a flag.
    pub fn flag_state(&self) -> (r: Option<&Flag<Cf>>)
        ensures
            match r {
                Some(f) => self.spec_flag_state() == Some(*f),
                None => self.spec_flag_state() is None,
            },
    {
        match self {
            TileState::ClosedEmpty(flag) => Some(flag),
            TileState::Mine(flag) => Some(flag),
            _ => None,
        }
    }

    /// Returns `true` if the flag state is exactly `Flagged`, `false` otherwise.
    #[verifier::when_used_as_spec(spec_is_flagged)]
    pub fn is_flagged(&self) -> (r: bool)
        ensures
            r == self.spec_is_flagged(),
    {
        match self {
            TileState::ClosedEmpty(flag) => matches!(flag, Flag::Flagged),
            TileState::Mine(flag) => matches!(flag, Flag::Flagged),
            _ => false,
        }
    }

    /// Returns the `ClickOutcome` that the data of this tile alone determines,
    /// or `None` if resolving the click requires access to the field.
    #[verifier::when_used_as_spec(spec_peek_local)]
    pub fn peek_local(&self) -> (r: Option<ClickOutcome>)
        ensures
            r == self.spec_peek_local(),
    {
        match self {
            TileState::ClosedEmpty(_) => None,
            TileState::OpenEmpty => Some(ClickOutcome::OpenClearing),
            TileState::OpenNumber(_) => Some(ClickOutcome::Chord),
            TileState::Mine(_) => Some(ClickOutcome::Explosion),
        }
    }
}

impl<Cf> Default for TileState<Cf> {
    /// Returns the `ClosedEmpty` variant with no flag.
    fn default() -> (r: Self)
        ensures
            r == TileState::<Cf>::ClosedEmpty(Flag::NotFlagged),
    {
        TileState::ClosedEmpty(Flag::NotFlagged)
    }
}

impl<Cf> PartialEq for TileState<Cf> {
    /// Compares two tile states coarsely: two states are equal when both hold a
    /// mine or both do not. The flag marker and the neighboring mine count are
    /// deliberately not compared; this is a hazard partition, not identity.
    fn eq(&self, other: &Self) -> (r: bool) {
        self.is_mine() == other.is_mine()
    }
}

impl<Cf> vstd::std_specs::cmp::PartialEqSpecImpl for TileState<Cf> {
    open spec fn obeys_eq_spec() -> bool {
        true
    }

    open spec fn eq_spec(&self, other: &Self) -> bool {
        self.spec_is_mine() == other.spec_is_mine()
    }
}

/// A tile on a Minesweeper field: its state together with a custom payload
/// owned by the embedding front end (a render handle, an entity id); the core
/// never inspects the payload.
pub struct Tile<Ct, Cf> {
    /// The state of the tile.
    pub state: TileState<Cf>,
    /// The custom payload; the core algorithms carry it along untouched.
    pub payload: Ct,
}

impl<Ct: Default, Cf> Tile<Ct, Cf> {
    /// Builds a tile in the given state, with the payload's default value.
    pub fn from_state(state: TileState<Cf>) -> (r: Self)
        ensures
            r.state == state,
    {
        Tile { state, payload: Ct::default() }
    }
}

impl<Ct, Cf> Tile<Ct, Cf> {
    /// Returns `true` if the tile is closed, `false` otherwise.
    pub fn is_closed(&self) -> (r: bool)
        ensures
            r == self.state.spec_is_closed(),
    {
        self.state.is_closed()
    }

    /// Returns `true` if the tile is open, `false` otherwise.
    pub fn is_open(&self) -> (r: bool)
        ensures
            r == self.state.spec_is_open(),
    {
        self.state.is_open()
    }

    /// Returns `true` if the tile contains a mine, `false` otherwise.
    pub fn is_mine(&self) -> (r: bool)
        ensures
            r == self.state.spec_is_mine(),
    {
        self.state.is_mine()
    }

    /// Returns `true` if clicking this tile does not end the game.
    pub fn is_safe(&self) -> (r: bool)
        ensures
            r == !self.state.spec_is_mine(),
    {
        self.state.is_safe()
    }

    /// Returns `true` if this tile has to be clicked for the game to be won.
    pub fn is_required_to_open(&self) -> (r: bool)
        ensures
            r == self.state.spec_is_required_to_open(),
    {
        self.state.is_required_to_open()
    }

    /// Returns the `ClickOutcome` that this tile alone determines, or `None`
    /// if resolving the click requires access to the field.
    pub fn peek_local(&self) -> (r: Option<ClickOutcome>)
        ensures
            r == self.state.spec_peek_local(),
    {
        self.state.peek_local()
    }
}

impl<Ct: Default, Cf> Default for Tile<Ct, Cf> {
    /// Returns a closed, unflagged tile with the payload's default value.
    fn default() -> (r: Self)
        ensures
            r.state == TileState::<Cf>::ClosedEmpty(Flag::NotFlagged),
    {
        Tile { state: TileState::ClosedEmpty(Flag::NotFlagged), payload: Ct::default() }
    }
}

} // verus!

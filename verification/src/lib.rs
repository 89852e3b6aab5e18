//! A foundation for Minesweeper implementations: a grid of tiles together with
//! the algorithms that interpret player actions (opening a tile, chording,
//! recursive chording), the clearing flood fill, and the 3BV difficulty metric.
//!
//! Front ends supply rendering, input handling and persistence; this crate owns
//! the grid state machine and proves its behaviour.

pub mod clearing;
pub mod field;
pub mod generation;
pub mod iter;
pub mod metrics;
pub mod tile;

pub use clearing::Clearing;
pub use clearing::ClearingMut;
pub use field::ChordOutcome;
pub use field::Field;
pub use field::FieldCoordinates;
pub use field::FieldDimensions;
pub use field::RecursiveChordOutcome;
pub use iter::ColumnIter;
pub use iter::FieldColumnsIter;
pub use iter::FieldRowsIter;
pub use iter::RowIter;
pub use tile::ClickOutcome;
pub use tile::Flag;
pub use tile::Tile;
pub use tile::TileState;

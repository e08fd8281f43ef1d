pub mod bitboard;
pub mod position;
pub mod state;

pub use self::bitboard::BitBoard;
pub use self::position::MoveDirection;
pub use self::position::Position;
pub use self::state::GameState;

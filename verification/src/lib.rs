//! A verified Conway's Game of Life engine on a toroidal grid, with codecs
//! for the RLE and Life 1.06 plaintext pattern formats.

pub mod coords;
pub mod grid;
pub mod render;
pub mod text;
pub mod life106;
pub mod rle;

pub use grid::Cell;
pub use grid::Universe;
pub use grid::CoordinateError;
pub use life106::Life106DecoderError;
pub use rle::RLEDecoderError;
pub use rle::parse_size_value;

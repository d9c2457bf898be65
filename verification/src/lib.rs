use vstd::prelude::*;

pub mod canvas;
pub mod codec;
pub mod fetch;
pub mod history;
pub mod render;
pub mod retry;
pub mod scanner;
pub mod store;

pub use canvas::Pixel;
pub use canvas::Board;
pub use history::History;
pub use fetch::JsonResponse;
pub use fetch::RpcError;
pub use fetch::ViewStateResponse;
pub use fetch::StateKeyValues;
pub use fetch::FetchError;

verus! {

/// Width of the canvas, in pixels.
pub const BOARD_WIDTH: u32 = 50;
/// Height of the canvas, in pixels.
pub const BOARD_HEIGHT: u32 = 50;
/// Number of cells on the whole canvas.
pub const TOTAL_NUM_PIXELS: u32 = 2500;

} // verus!

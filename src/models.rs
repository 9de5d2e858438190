use vstd::prelude::*;

use crate::frame::FractalImage;
use crate::tiles::TileData;

verus! {

/// The answer to a whole-image render: how long it took, in words and in
/// milliseconds, and the image.
#[derive(Clone, Debug)]
pub struct FractalResponse {
    pub duration_calculation: String,
    pub duration_ms: u128,
    pub fractal: FractalImage,
}

/// One message of a progressive render: a finished tile, or `None` once
/// every tile has been sent.
#[derive(Clone, Debug)]
pub struct WebSocketResponse {
    pub tile: Option<TileData>,
}

impl WebSocketResponse {
    /// The message that carries `tile`.
    pub fn with_tile(tile: TileData) -> (m: WebSocketResponse)
        ensures
            m.tile == Some(tile),
    {
        WebSocketResponse { tile: Some(tile) }
    }

    /// The message that ends the stream.
    pub fn end_of_stream() -> (m: WebSocketResponse)
        ensures
            m.tile is None,
    {
        WebSocketResponse { tile: None }
    }
}

} // verus!

//! Reads the seismic-event bulletin of the Kandilli observatory: finds the bulletin block in
//! its HTML page, splits the block into rows and columns, and turns each row into an event.

pub mod decimal;
pub mod text;
pub mod deprem;

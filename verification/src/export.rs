//! What the exporters compute before handing data to a file format.
pub mod bitmap;
pub mod dxf;

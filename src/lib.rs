pub mod arrangement;
pub mod asset;
pub mod color;
pub mod decimal;
pub mod document;
pub mod error;
pub mod number;
pub mod escape;
pub mod points;
pub mod reader;
pub mod text;
pub mod transform;

pub use arrangement::{mouse_move, Arrangement};
pub use asset::asset_path;
pub use color::{str_to_color, Color};
pub use decimal::Decimal;
pub use document::{defs, g, ClipPath, HrefAndClipMask, Image, Mask, Polygon, SourceStamp, SVG};
pub use error::ParseError;
pub use escape::attr_escape;
pub use points::{pack_polygon_points, unpack_polygon_points, Point};
pub use transform::{Term, Transform};

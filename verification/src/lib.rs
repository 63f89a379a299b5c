pub mod bitmap;
pub mod cli;
pub mod codec;
pub mod dedup;
pub mod error;
pub mod geom;
pub mod index;
pub mod naming;
pub mod pack;
pub mod sdf;
pub mod sheet;
pub mod sprite;
pub mod strmap;
pub mod text;
pub mod vector;

pub use cli::Cli;
pub use error::Error;
pub use error::Error as SpreetError;
pub use error::SpreetResult;
pub use geom::Rect;
pub use index::SpriteDescription;
pub use naming::sprite_name;
pub use sprite::Sprite;
pub use sheet::Spritesheet;
pub use sheet::SpritesheetBuilder;

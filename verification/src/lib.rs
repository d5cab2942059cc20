pub mod anvil;
pub mod blockstate;
pub mod material;
pub mod mesh;
pub mod text;
pub mod vmf;
pub mod world;

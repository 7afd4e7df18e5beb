pub mod canvas;
pub mod cell;
pub mod image;
pub mod music;
pub mod rectarea;
pub mod settings;
pub mod shape;
pub mod tilemap;

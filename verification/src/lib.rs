use vstd::prelude::*;

pub mod text;
pub mod math_render;
pub mod md_render;
pub mod md_renderer;
pub mod md_parse;
pub mod md_roundtrip;
pub mod message;
pub mod bedrock;
pub mod session;
pub mod keychain;

verus! {

} // verus!

use vstd::prelude::*;

pub mod text;
pub mod dom;
pub mod js;
pub mod html;
pub mod selector;
pub mod stylesheet;
pub mod style;
pub mod properties;
pub mod search;
pub mod output;
pub mod fetch;
pub mod session;
pub mod frontend;

//! Front end of a small rendering pipeline: a markup parser, a stylesheet
//! parser and a style resolver that pairs document elements with the
//! declarations that apply to them.

pub mod chars;
pub mod css;
pub mod css_parser;
pub mod dom;
pub mod styles;
pub mod html_parser;

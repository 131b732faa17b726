//! Names for the ASCII bytes that the byte-level grammars give a meaning to.
use vstd::prelude::*;

verus! {

pub const TAB: u8 = 0x09;

pub const NEWLINE: u8 = 0x0a;

pub const SPACE: u8 = 0x20;

pub const BANG: u8 = 0x21;

pub const DOLLAR: u8 = 0x24;

pub const LPAREN: u8 = 0x28;

pub const RPAREN: u8 = 0x29;

pub const STAR: u8 = 0x2a;

pub const PLUS: u8 = 0x2b;

pub const COMMA: u8 = 0x2c;

pub const DASH: u8 = 0x2d;

pub const DOT: u8 = 0x2e;

pub const SLASH: u8 = 0x2f;

pub const QUESTION: u8 = 0x3f;

pub const AT: u8 = 0x40;

pub const LBRACKET: u8 = 0x5b;

pub const BACKSLASH: u8 = 0x5c;

pub const RBRACKET: u8 = 0x5d;

pub const CARET: u8 = 0x5e;

pub const LBRACE: u8 = 0x7b;

pub const PIPE: u8 = 0x7c;

} // verus!

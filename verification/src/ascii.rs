//! Names for the ASCII bytes that the wire grammar and the JSON bridge use.

use vstd::prelude::*;

verus! {

/// `'0'`
pub const DIGIT_0: u8 = 48;

/// `'9'`
pub const DIGIT_9: u8 = 57;

/// `'-'`
pub const MINUS: u8 = 45;

/// `':'`
pub const COLON: u8 = 58;

/// `'d'`, the dictionary lead byte.
pub const TOK_DICT: u8 = 100;

/// `'l'`, the list lead byte.
pub const TOK_LIST: u8 = 108;

/// `'u'`, the text lead byte.
pub const TOK_TEXT: u8 = 117;

/// `'i'`, the number lead byte.
pub const TOK_INT: u8 = 105;

/// `'e'`, the terminator byte.
pub const TOK_END: u8 = 101;

/// `'t'`, the true literal.
pub const TOK_TRUE: u8 = 116;

/// `'f'`, the false literal.
pub const TOK_FALSE: u8 = 102;

/// `'n'`, the null literal.
pub const TOK_NULL: u8 = 110;

} // verus!

//! A collection of common patterns for use in tokenizers.

use vstd::prelude::*;

verus! {

/// A single character enclosed in single quotes (e.g. `'h'`).
pub const CHAR: (&'static str, &'static str) = ("char", r"'(?:\\'|[^'])'");

/// A string enclosed in single quotes (e.g. `'nice fish'`).
pub const SINGLE_QUOTED_STRING: (&'static str, &'static str) = ("single_quoted_string", r"'(?:\\.|[^\\])*?'");

/// A string enclosed in double quotes (e.g. `"hello there"`).
pub const DOUBLE_QUOTED_STRING: (&'static str, &'static str) = ("double_quoted_string", r#""(?:\\.|[^\\])*?""#);

/// An English letter (e.g. `m`). Case insensitive.
pub const LETTER: (&'static str, &'static str) = ("letter", r"[A-Za-z]");

/// An English word (e.g. `thread-safe`). Allows non-consecutive hyphens. Case insensitive.
pub const WORD: (&'static str, &'static str) = ("word", r"[A-Za-z]+(-[A-Za-z]+)*");

/// A C-like variable name (e.g. `crossandra_rocks`). Can consist of English letters, digits, and underscores. Cannot start with a digit.
pub const C_NAME: (&'static str, &'static str) = ("c_name", r"[_A-Za-z][_A-Za-z\d]*");

/// A newline (either `\n` or `\r\n`).
pub const NEWLINE: (&'static str, &'static str) = ("newline", r"\r?\n");

/// A single digit (e.g. `7`).
pub const DIGIT: (&'static str, &'static str) = ("digit", r"[0-9]");

/// A single hexadecimal digit (e.g. `c`). Case insensitive.
pub const HEXDIGIT: (&'static str, &'static str) = ("hexdigit", r"[0-9A-Fa-f]");

/// An unsigned integer (e.g. `2_137`). Underscores can be used as separators.
pub const UNSIGNED_INT: (&'static str, &'static str) = ("unsigned_int", r"[0-9](?:[0-9_]*[0-9])?");

/// A signed integer (e.g. `-1`). Underscores can be used as separators.
pub const SIGNED_INT: (&'static str, &'static str) = ("signed_int", r"[+\-][0-9](?:[0-9_]*[0-9])?");

/// A decimal value (e.g. `3.14`).
pub const DECIMAL: (&'static str, &'static str) = ("decimal", r"[0-9](?:[0-9_]*[0-9])?\.(?:[0-9](?:[0-9_]*[0-9])?)?|\.[0-9](?:[0-9_]*[0-9])?");

/// An unsigned floating point value (e.g. `1e3`).
pub const UNSIGNED_FLOAT: (&'static str, &'static str) = ("unsigned_float", r"[0-9](?:[0-9_]*[0-9])?(?:[eE][+\-]?[0-9](?:[0-9_]*[0-9])?)|(?:[0-9](?:[0-9_]*[0-9])?\.(?:[0-9](?:[0-9_]*[0-9])?)?|\.[0-9](?:[0-9_]*[0-9])?)(?:[eE][+\-]?[0-9](?:[0-9_]*[0-9])?)?");

/// A signed floating point value (e.g. `+4.3`).
pub const SIGNED_FLOAT: (&'static str, &'static str) = ("signed_float", r"[+\-](?:[0-9](?:[0-9_]*[0-9])?(?:[eE][+\-]?[0-9](?:[0-9_]*[0-9])?)|(?:[0-9](?:[0-9_]*[0-9])?\.(?:[0-9](?:[0-9_]*[0-9])?)?|\.[0-9](?:[0-9_]*[0-9])?)(?:[eE][+\-]?[0-9](?:[0-9_]*[0-9])?)?)");

/// A string enclosed in either single or double quotes.
pub const STRING: (&'static str, &'static str) = ("string", r#""(?:\\.|[^\\])*?"|\'(?:\\.|[^\\])*?'"#);

/// An unsigned number (either an integer or a float).
pub const UNSIGNED_NUMBER: (&'static str, &'static str) = ("unsigned_number", r"[0-9](?:[0-9_]*[0-9])?(?:[eE][+\-]?[0-9](?:[0-9_]*[0-9])?)|(?:[0-9](?:[0-9_]*[0-9])?\.(?:[0-9](?:[0-9_]*[0-9])?)?|\.[0-9](?:[0-9_]*[0-9])?)(?:[eE][+\-]?[0-9](?:[0-9_]*[0-9])?)?|[0-9](?:[0-9_]*[0-9])?");

/// A signed number (either an integer or a floating point value).
pub const SIGNED_NUMBER: (&'static str, &'static str) = ("signed_number", r"[+\-](?:(?:[0-9](?:[0-9_]*[0-9])?(?:[eE][+\-]?[0-9](?:[0-9_]*[0-9])?)|(?:[0-9](?:[0-9_]*[0-9])?\.(?:[0-9](?:[0-9_]*[0-9])?)?|\.[0-9](?:[0-9_]*[0-9])?)(?:[eE][+\-]?[0-9](?:[0-9_]*[0-9])?)?)|[0-9](?:[0-9_]*[0-9])?)");

/// Any integer value (optional sign).
pub const INT: (&'static str, &'static str) = ("int", r"[+\-]?[0-9](?:[0-9_]*[0-9])?");

/// Any floating point value (optional sign).
pub const FLOAT: (&'static str, &'static str) = ("float", r"[+\-]?(?:[0-9](?:[0-9_]*[0-9])?(?:[eE][+\-]?[0-9](?:[0-9_]*[0-9])?)|(?:[0-9](?:[0-9_]*[0-9])?\.(?:[0-9](?:[0-9_]*[0-9])?)?|\.[0-9](?:[0-9_]*[0-9])?)(?:[eE][+\-]?[0-9](?:[0-9_]*[0-9])?)?)");

/// Any number (optional sign).
pub const NUMBER: (&'static str, &'static str) = ("number", r"[+\-]?(?:(?:[0-9](?:[0-9_]*[0-9])?(?:[eE][+\-]?[0-9](?:[0-9_]*[0-9])?)|(?:[0-9](?:[0-9_]*[0-9])?\.(?:[0-9](?:[0-9_]*[0-9])?)?|\.[0-9](?:[0-9_]*[0-9])?)(?:[eE][+\-]?[0-9](?:[0-9_]*[0-9])?)?)|[0-9](?:[0-9_]*[0-9])?)");

} // verus!

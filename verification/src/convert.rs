//! Typed access to the values of a section: from a property to a value of a
//! Rust type, and from a value of a Rust type to the text of a property.
//!
//! `Config::get` is lenient: an absent property and a value that cannot be
//! converted both give `None`. `FromProperty::from_property` is strict: it
//! reports the property that cannot be converted.

use crate::config::{Config, Entry, Property};
use crate::error::{ConfigError, Fault};
use crate::number::{integer, read_integer, read_truth, truth};
use crate::text::{append_signed, signed_decimal};
use vstd::prelude::*;
use vstd::string::StringExecFns;

verus! {

/// A type whose values can be read from a property.
pub trait FromProperty<'a>: Sized {
    /// Whether the raw value `value` denotes a value of this type.
    spec fn coercible(value: Seq<char>) -> bool;

    /// Whether `result` is the value that the raw value `value` denotes.
    spec fn coerced(value: Seq<char>, result: Self) -> bool;

    /// Converts the value of `p`, or reports `p` as invalid.
    fn from_property(p: &'a Property) -> (r: Result<Self, ConfigError>)
        ensures
            match r {
                Ok(v) => Self::coercible(p@.value) && Self::coerced(p@.value, v),
                Err(e) => !Self::coercible(p@.value) && e@ == Fault::InvalidProperty(
                    p@.line,
                    p@.name,
                ),
            },
    ;
}

/// The failure that reports `p` as invalid.
pub fn invalid_property(p: &Property) -> (e: ConfigError)
    ensures
        e@ == Fault::InvalidProperty(p@.line, p@.name),
{
    ConfigError::InvalidProperty(p.get_line(), String::from_str(p.get_name()))
}

impl<'a> FromProperty<'a> for &'a str {
    open spec fn coercible(value: Seq<char>) -> bool {
        true
    }

    open spec fn coerced(value: Seq<char>, result: &'a str) -> bool {
        result@ == value
    }

    fn from_property(p: &'a Property) -> (r: Result<&'a str, ConfigError>) {
        Ok(p.get_value())
    }
}

impl<'a> FromProperty<'a> for bool {
    open spec fn coercible(value: Seq<char>) -> bool {
        truth(value) is Some
    }

    open spec fn coerced(value: Seq<char>, result: bool) -> bool {
        truth(value) == Some(result)
    }

    fn from_property(p: &'a Property) -> (r: Result<bool, ConfigError>) {
        match read_truth(p.get_value()) {
            Some(v) => Ok(v),
            None => Err(invalid_property(p)),
        }
    }
}

impl<'a> FromProperty<'a> for u8 {
    open spec fn coercible(value: Seq<char>) -> bool {
        integer(value, false, u8::MIN as int, u8::MAX as int) is Some
    }

    open spec fn coerced(value: Seq<char>, result: u8) -> bool {
        integer(value, false, u8::MIN as int, u8::MAX as int) == Some(result as int)
    }

    fn from_property(p: &'a Property) -> (r: Result<u8, ConfigError>) {
        match read_integer(p.get_value(), false, u8::MIN as i128, u8::MAX as i128) {
            Some(v) => Ok(v as u8),
            None => Err(invalid_property(p)),
        }
    }
}

impl<'a> FromProperty<'a> for i8 {
    open spec fn coercible(value: Seq<char>) -> bool {
        integer(value, true, i8::MIN as int, i8::MAX as int) is Some
    }

    open spec fn coerced(value: Seq<char>, result: i8) -> bool {
        integer(value, true, i8::MIN as int, i8::MAX as int) == Some(result as int)
    }

    fn from_property(p: &'a Property) -> (r: Result<i8, ConfigError>) {
        match read_integer(p.get_value(), true, i8::MIN as i128, i8::MAX as i128) {
            Some(v) => Ok(v as i8),
            None => Err(invalid_property(p)),
        }
    }
}

impl<'a> FromProperty<'a> for u16 {
    open spec fn coercible(value: Seq<char>) -> bool {
        integer(value, false, u16::MIN as int, u16::MAX as int) is Some
    }

    open spec fn coerced(value: Seq<char>, result: u16) -> bool {
        integer(value, false, u16::MIN as int, u16::MAX as int) == Some(result as int)
    }

    fn from_property(p: &'a Property) -> (r: Result<u16, ConfigError>) {
        match read_integer(p.get_value(), false, u16::MIN as i128, u16::MAX as i128) {
            Some(v) => Ok(v as u16),
            None => Err(invalid_property(p)),
        }
    }
}

impl<'a> FromProperty<'a> for i16 {
    open spec fn coercible(value: Seq<char>) -> bool {
        integer(value, true, i16::MIN as int, i16::MAX as int) is Some
    }

    open spec fn coerced(value: Seq<char>, result: i16) -> bool {
        integer(value, true, i16::MIN as int, i16::MAX as int) == Some(result as int)
    }

    fn from_property(p: &'a Property) -> (r: Result<i16, ConfigError>) {
        match read_integer(p.get_value(), true, i16::MIN as i128, i16::MAX as i128) {
            Some(v) => Ok(v as i16),
            None => Err(invalid_property(p)),
        }
    }
}

impl<'a> FromProperty<'a> for u32 {
    open spec fn coercible(value: Seq<char>) -> bool {
        integer(value, false, u32::MIN as int, u32::MAX as int) is Some
    }

    open spec fn coerced(value: Seq<char>, result: u32) -> bool {
        integer(value, false, u32::MIN as int, u32::MAX as int) == Some(result as int)
    }

    fn from_property(p: &'a Property) -> (r: Result<u32, ConfigError>) {
        match read_integer(p.get_value(), false, u32::MIN as i128, u32::MAX as i128) {
            Some(v) => Ok(v as u32),
            None => Err(invalid_property(p)),
        }
    }
}

impl<'a> FromProperty<'a> for i32 {
    open spec fn coercible(value: Seq<char>) -> bool {
        integer(value, true, i32::MIN as int, i32::MAX as int) is Some
    }

    open spec fn coerced(value: Seq<char>, result: i32) -> bool {
        integer(value, true, i32::MIN as int, i32::MAX as int) == Some(result as int)
    }

    fn from_property(p: &'a Property) -> (r: Result<i32, ConfigError>) {
        match read_integer(p.get_value(), true, i32::MIN as i128, i32::MAX as i128) {
            Some(v) => Ok(v as i32),
            None => Err(invalid_property(p)),
        }
    }
}

impl<'a> FromProperty<'a> for u64 {
    open spec fn coercible(value: Seq<char>) -> bool {
        integer(value, false, u64::MIN as int, u64::MAX as int) is Some
    }

    open spec fn coerced(value: Seq<char>, result: u64) -> bool {
        integer(value, false, u64::MIN as int, u64::MAX as int) == Some(result as int)
    }

    fn from_property(p: &'a Property) -> (r: Result<u64, ConfigError>) {
        match read_integer(p.get_value(), false, u64::MIN as i128, u64::MAX as i128) {
            Some(v) => Ok(v as u64),
            None => Err(invalid_property(p)),
        }
    }
}

impl<'a> FromProperty<'a> for i64 {
    open spec fn coercible(value: Seq<char>) -> bool {
        integer(value, true, i64::MIN as int, i64::MAX as int) is Some
    }

    open spec fn coerced(value: Seq<char>, result: i64) -> bool {
        integer(value, true, i64::MIN as int, i64::MAX as int) == Some(result as int)
    }

    fn from_property(p: &'a Property) -> (r: Result<i64, ConfigError>) {
        match read_integer(p.get_value(), true, i64::MIN as i128, i64::MAX as i128) {
            Some(v) => Ok(v as i64),
            None => Err(invalid_property(p)),
        }
    }
}

impl<'a> FromProperty<'a> for usize {
    open spec fn coercible(value: Seq<char>) -> bool {
        integer(value, false, usize::MIN as int, usize::MAX as int) is Some
    }

    open spec fn coerced(value: Seq<char>, result: usize) -> bool {
        integer(value, false, usize::MIN as int, usize::MAX as int) == Some(result as int)
    }

    fn from_property(p: &'a Property) -> (r: Result<usize, ConfigError>) {
        match read_integer(p.get_value(), false, usize::MIN as i128, usize::MAX as i128) {
            Some(v) => Ok(v as usize),
            None => Err(invalid_property(p)),
        }
    }
}

impl<'a> FromProperty<'a> for isize {
    open spec fn coercible(value: Seq<char>) -> bool {
        integer(value, true, isize::MIN as int, isize::MAX as int) is Some
    }

    open spec fn coerced(value: Seq<char>, result: isize) -> bool {
        integer(value, true, isize::MIN as int, isize::MAX as int) == Some(result as int)
    }

    fn from_property(p: &'a Property) -> (r: Result<isize, ConfigError>) {
        match read_integer(p.get_value(), true, isize::MIN as i128, isize::MAX as i128) {
            Some(v) => Ok(v as isize),
            None => Err(invalid_property(p)),
        }
    }
}

/// A value that can be written as the value of a property.
pub trait ToValue {
    /// The text that stands for the value.
    spec fn text(&self) -> Seq<char>;

    /// Writes the value as text.
    fn to_value(&self) -> (s: String)
        ensures
            s@ == self.text(),
    ;
}

impl ToValue for &str {
    open spec fn text(&self) -> Seq<char> {
        self@
    }

    fn to_value(&self) -> (s: String) {
        String::from_str(*self)
    }
}

impl ToValue for String {
    open spec fn text(&self) -> Seq<char> {
        self@
    }

    fn to_value(&self) -> (s: String) {
        String::from_str(self.as_str())
    }
}

impl ToValue for bool {
    open spec fn text(&self) -> Seq<char> {
        if *self {
            "true"@
        } else {
            "false"@
        }
    }

    fn to_value(&self) -> (s: String) {
        if *self {
            String::from_str("true")
        } else {
            String::from_str("false")
        }
    }
}

/// `v` written in base ten.
pub fn integer_text(v: i128) -> (s: String)
    requires
        -0x8000_0000_0000_0000 <= v <= 0xFFFF_FFFF_FFFF_FFFF,
    ensures
        s@ == signed_decimal(v as int),
{
    let mut s = String::new();
    append_signed(&mut s, v);
    proof {
        assert(s@ =~= signed_decimal(v as int));
    }
    s
}

impl ToValue for u8 {
    open spec fn text(&self) -> Seq<char> {
        signed_decimal(*self as int)
    }

    fn to_value(&self) -> (s: String) {
        integer_text(*self as i128)
    }
}

impl ToValue for i8 {
    open spec fn text(&self) -> Seq<char> {
        signed_decimal(*self as int)
    }

    fn to_value(&self) -> (s: String) {
        integer_text(*self as i128)
    }
}

impl ToValue for u16 {
    open spec fn text(&self) -> Seq<char> {
        signed_decimal(*self as int)
    }

    fn to_value(&self) -> (s: String) {
        integer_text(*self as i128)
    }
}

impl ToValue for i16 {
    open spec fn text(&self) -> Seq<char> {
        signed_decimal(*self as int)
    }

    fn to_value(&self) -> (s: String) {
        integer_text(*self as i128)
    }
}

impl ToValue for u32 {
    open spec fn text(&self) -> Seq<char> {
        signed_decimal(*self as int)
    }

    fn to_value(&self) -> (s: String) {
        integer_text(*self as i128)
    }
}

impl ToValue for i32 {
    open spec fn text(&self) -> Seq<char> {
        signed_decimal(*self as int)
    }

    fn to_value(&self) -> (s: String) {
        integer_text(*self as i128)
    }
}

impl ToValue for u64 {
    open spec fn text(&self) -> Seq<char> {
        signed_decimal(*self as int)
    }

    fn to_value(&self) -> (s: String) {
        integer_text(*self as i128)
    }
}

impl ToValue for i64 {
    open spec fn text(&self) -> Seq<char> {
        signed_decimal(*self as int)
    }

    fn to_value(&self) -> (s: String) {
        integer_text(*self as i128)
    }
}

impl ToValue for usize {
    open spec fn text(&self) -> Seq<char> {
        signed_decimal(*self as int)
    }

    fn to_value(&self) -> (s: String) {
        integer_text(*self as i128)
    }
}

impl ToValue for isize {
    open spec fn text(&self) -> Seq<char> {
        signed_decimal(*self as int)
    }

    fn to_value(&self) -> (s: String) {
        integer_text(*self as i128)
    }
}

impl Config {
    /// Appends a property called `name` with the value `value`, written as
    /// text. Its line is 0.
    pub fn set<T: ToValue>(&mut self, name: &str, value: T)
        ensures
            final(self)@ == old(self)@.push_property(
                Entry { line: 0, name: name@, value: value.text() },
            ),
    {
        let text = value.to_value();
        self.push(Property::new(name, text.as_str()));
    }

    /// Returns the value of the first property called `name`, converted to
    /// `F`, or `default` where there is no such property. A property whose
    /// value does not convert is reported as invalid.
    pub fn get_or<'a, F: FromProperty<'a>>(&'a self, name: &str, default: F) -> (r: Result<
        F,
        ConfigError,
    >)
        ensures
            match self@.lookup(name@) {
                Some(entry) => match r {
                    Ok(v) => F::coercible(entry.value) && F::coerced(entry.value, v),
                    Err(e) => !F::coercible(entry.value) && e@ == Fault::InvalidProperty(
                        entry.line,
                        entry.name,
                    ),
                },
                None => r == Ok::<F, ConfigError>(default),
            },
    {
        match self.get_property(name) {
            Some(p) => F::from_property(p),
            None => Ok(default),
        }
    }

    /// Returns the value of the first property called `name`, converted to
    /// `F`. Returns `None` where there is no such property, and where its
    /// value does not convert.
    pub fn get<'a, F: FromProperty<'a>>(&'a self, name: &str) -> (r: Option<F>)
        ensures
            match self@.lookup(name@) {
                Some(entry) => match r {
                    Some(v) => F::coercible(entry.value) && F::coerced(entry.value, v),
                    None => !F::coercible(entry.value),
                },
                None => r is None,
            },
    {
        match self.get_property(name) {
            Some(p) => match F::from_property(p) {
                Ok(v) => Some(v),
                Err(_) => None,
            },
            None => None,
        }
    }
}

} // verus!

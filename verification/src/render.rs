//! Display-boundary helpers: the UTC label of a timestamp, and the
//! names under which field types are declared in schema documents.

use vstd::prelude::*;

use crate::codec::FieldType;

verus! {

/// The UTC date-time label of a Unix epoch second count, in the form
/// `"%Y-%m-%d %H:%M"`. The label depends on the second count alone.
pub uninterp spec fn utc_label_of(secs: u64) -> Seq<char>;

/// Relies on chrono's `DateTime::<Utc>::from_timestamp` and `format`:
/// renders a Unix epoch second count as its UTC date-time label, a pure
/// function of the second count. Within the range that chrono's calendar
/// covers through the year 9999 the label is sixteen characters,
/// `"YYYY-MM-DD HH:MM"`; far outside it the label is empty.
#[verifier::external_body]
pub fn timestamp_display(secs: u64) -> (r: String)
    ensures
        r@ == utc_label_of(secs),
        secs < 253_402_300_800 ==> r@.len() == 16,
{
    match chrono::DateTime::<chrono::Utc>::from_timestamp(secs as i64, 0) {
        Some(dt) => dt.format("%Y-%m-%d %H:%M").to_string(),
        None => String::new(),
    }
}

/// The name under which a field type is declared in a schema document.
pub open spec fn spec_type_label(t: FieldType) -> Seq<char> {
    match t {
        FieldType::U8 => "u8"@,
        FieldType::U16 => "u16"@,
        FieldType::U32 => "u32"@,
        FieldType::U64 => "u64"@,
        FieldType::I8 => "i8"@,
        FieldType::I16 => "i16"@,
        FieldType::I32 => "i32"@,
        FieldType::I64 => "i64"@,
        FieldType::F32 => "f32"@,
        FieldType::F64 => "f64"@,
    }
}

/// The name under which a field type is declared in a schema document.
pub fn type_label(t: FieldType) -> (s: &'static str)
    ensures
        s@ == spec_type_label(t),
{
    match t {
        FieldType::U8 => "u8",
        FieldType::U16 => "u16",
        FieldType::U32 => "u32",
        FieldType::U64 => "u64",
        FieldType::I8 => "i8",
        FieldType::I16 => "i16",
        FieldType::I32 => "i32",
        FieldType::I64 => "i64",
        FieldType::F32 => "f32",
        FieldType::F64 => "f64",
    }
}

/// The field type a declared name denotes, if any.
pub open spec fn spec_parse_type(s: Seq<char>) -> Option<FieldType> {
    if s == "u8"@ {
        Some(FieldType::U8)
    } else if s == "u16"@ {
        Some(FieldType::U16)
    } else if s == "u32"@ {
        Some(FieldType::U32)
    } else if s == "u64"@ {
        Some(FieldType::U64)
    } else if s == "i8"@ {
        Some(FieldType::I8)
    } else if s == "i16"@ {
        Some(FieldType::I16)
    } else if s == "i32"@ {
        Some(FieldType::I32)
    } else if s == "i64"@ {
        Some(FieldType::I64)
    } else if s == "f32"@ {
        Some(FieldType::F32)
    } else if s == "f64"@ {
        Some(FieldType::F64)
    } else {
        None
    }
}

/// Parses a declared type name.
pub fn parse_type(s: &str) -> (r: Option<FieldType>)
    ensures
        r == spec_parse_type(s@),
{
    let owned = s.to_owned();
    if owned == "u8".to_owned() {
        Some(FieldType::U8)
    } else if owned == "u16".to_owned() {
        Some(FieldType::U16)
    } else if owned == "u32".to_owned() {
        Some(FieldType::U32)
    } else if owned == "u64".to_owned() {
        Some(FieldType::U64)
    } else if owned == "i8".to_owned() {
        Some(FieldType::I8)
    } else if owned == "i16".to_owned() {
        Some(FieldType::I16)
    } else if owned == "i32".to_owned() {
        Some(FieldType::I32)
    } else if owned == "i64".to_owned() {
        Some(FieldType::I64)
    } else if owned == "f32".to_owned() {
        Some(FieldType::F32)
    } else if owned == "f64".to_owned() {
        Some(FieldType::F64)
    } else {
        None
    }
}

} // verus!

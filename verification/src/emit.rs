//! Which declaration macro describes a derived type, and what the derive
//! says when a type cannot be described as asked.

use vstd::prelude::*;
use crate::hash::str_equal;

verus! {

/// The formats a declaration covers.
#[derive(Clone, Copy, Debug, PartialEq, Eq, Structural)]
pub enum Format {
    /// JSON and BEVE both.
    Both,
    /// JSON only.
    Json,
    /// BEVE only.
    Beve,
}

/// The shape of the type being described, as the container attributes
/// settle it.
#[derive(Clone, Copy, Debug, PartialEq, Eq, Structural)]
pub enum Shape {
    /// A struct written as its one field's own value.
    Transparent,
    /// A struct written positionally, as an array.
    Array,
    /// A struct written as an object keyed by its field names.
    Object,
    /// An enum.
    Enum,
}

/// The name of the declaration macro for `base` in `format`: `base` itself
/// for both formats, and otherwise its one-format form, prefixed `json_` or
/// `beve_`, with anything other than an object, an array or a transparent
/// type being a tagged enum.
pub open spec fn format_macro(format: Format, base: Seq<char>) -> Seq<char> {
    match format {
        Format::Both => base,
        Format::Json => if base == "object"@ {
            "json_object"@
        } else if base == "array"@ {
            "json_array"@
        } else if base == "transparent"@ {
            "json_transparent"@
        } else {
            "json_tagged_enum"@
        },
        Format::Beve => if base == "object"@ {
            "beve_object"@
        } else if base == "array"@ {
            "beve_array"@
        } else if base == "transparent"@ {
            "beve_transparent"@
        } else {
            "beve_tagged_enum"@
        },
    }
}

/// The name [`per_format`] gives, as the text it returns.
pub open spec fn format_word(format: Format, base: &'static str) -> &'static str {
    match format {
        Format::Both => base,
        Format::Json => if base@ == "object"@ {
            "json_object"
        } else if base@ == "array"@ {
            "json_array"
        } else if base@ == "transparent"@ {
            "json_transparent"
        } else {
            "json_tagged_enum"
        },
        Format::Beve => if base@ == "object"@ {
            "beve_object"
        } else if base@ == "array"@ {
            "beve_array"
        } else if base@ == "transparent"@ {
            "beve_transparent"
        } else {
            "beve_tagged_enum"
        },
    }
}

/// The name [`macro_name`] gives, as the text it returns.
pub open spec fn macro_word(shape: Shape, format: Format, all_unit: bool, tagged: bool) -> &'static str {
    match shape {
        Shape::Transparent => format_word(format, "transparent"),
        Shape::Array => format_word(format, "array"),
        Shape::Object => format_word(format, "object"),
        Shape::Enum => if all_unit && !tagged && format == Format::Both {
            "unit_enum"
        } else {
            format_word(format, "tagged_enum")
        },
    }
}

/// The declaration macro for `base` in `format`, as [`format_macro`]
/// states it.
pub fn per_format(format: Format, base: &'static str) -> (r: &'static str)
    ensures
        r@ == format_macro(format, base@),
        r == format_word(format, base),
{
    match format {
        Format::Both => base,
        Format::Json => {
            if str_equal(base, "object") {
                "json_object"
            } else if str_equal(base, "array") {
                "json_array"
            } else if str_equal(base, "transparent") {
                "json_transparent"
            } else {
                "json_tagged_enum"
            }
        },
        Format::Beve => {
            if str_equal(base, "object") {
                "beve_object"
            } else if str_equal(base, "array") {
                "beve_array"
            } else if str_equal(base, "transparent") {
                "beve_transparent"
            } else {
                "beve_tagged_enum"
            }
        },
    }
}

/// The declaration macro for a type of `shape` in `format`. An enum whose
/// variants all carry nothing, with no tag and in both formats, is a
/// `unit_enum`, which has no one-format form: narrowed to one format, or
/// tagged, it is a tagged enum like any other.
pub fn macro_name(shape: Shape, format: Format, all_unit: bool, tagged: bool) -> (r: &'static str)
    ensures
        r@ == match shape {
            Shape::Transparent => format_macro(format, "transparent"@),
            Shape::Array => format_macro(format, "array"@),
            Shape::Object => format_macro(format, "object"@),
            Shape::Enum => if all_unit && !tagged && format == Format::Both {
                "unit_enum"@
            } else {
                format_macro(format, "tagged_enum"@)
            },
        },
        r == macro_word(shape, format, all_unit, tagged),
{
    match shape {
        Shape::Transparent => per_format(format, "transparent"),
        Shape::Array => per_format(format, "array"),
        Shape::Object => per_format(format, "object"),
        Shape::Enum => {
            if all_unit && !tagged && format == Format::Both {
                "unit_enum"
            } else {
                per_format(format, "tagged_enum")
            }
        },
    }
}

/// What to say to a tuple struct of `count` fields declared as an object:
/// its fields have no names to be keys. A one-field struct is pointed at
/// `transparent` as well as `array`, since its own value is what its author
/// almost always wants.
pub fn no_keys(count: usize) -> (r: &'static str)
    ensures
        count == 1 ==> r@ == ("a tuple struct has no field names to be keys. `#[structio(array)]` \
         declares it positional, which writes this field as a one-element \
         array; `#[structio(transparent)]` writes it as the field's own value")@,
        count != 1 ==> r@ == ("a tuple struct has no field names to be keys. Declare it positional \
         with `#[structio(array)]`, which writes the fields in order and asks \
         for no names, or give the fields names")@,
{
    if count == 1 {
        "a tuple struct has no field names to be keys. `#[structio(array)]` \
         declares it positional, which writes this field as a one-element \
         array; `#[structio(transparent)]` writes it as the field's own value"
    } else {
        "a tuple struct has no field names to be keys. Declare it positional \
         with `#[structio(array)]`, which writes the fields in order and asks \
         for no names, or give the fields names"
    }
}

} // verus!

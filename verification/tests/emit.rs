//! Which declaration macro a derived type is described by, and the message
//! for a tuple struct declared as an object.

use lib::{macro_name, no_keys, per_format, Format, Shape};

#[test]
fn both_formats_keep_the_base_name() {
    for base in ["object", "array", "transparent", "tagged_enum"] {
        assert_eq!(per_format(Format::Both, base), base);
    }
}

#[test]
fn one_format_prefixes_the_base_name() {
    assert_eq!(per_format(Format::Json, "object"), "json_object");
    assert_eq!(per_format(Format::Json, "array"), "json_array");
    assert_eq!(per_format(Format::Json, "transparent"), "json_transparent");
    assert_eq!(per_format(Format::Json, "tagged_enum"), "json_tagged_enum");
    assert_eq!(per_format(Format::Beve, "object"), "beve_object");
    assert_eq!(per_format(Format::Beve, "array"), "beve_array");
    assert_eq!(per_format(Format::Beve, "transparent"), "beve_transparent");
    assert_eq!(per_format(Format::Beve, "tagged_enum"), "beve_tagged_enum");
}

#[test]
fn a_unit_enum_in_both_formats_is_a_unit_enum_and_otherwise_tagged() {
    assert_eq!(macro_name(Shape::Enum, Format::Both, true, false), "unit_enum");
    assert_eq!(macro_name(Shape::Enum, Format::Both, true, true), "tagged_enum");
    assert_eq!(macro_name(Shape::Enum, Format::Both, false, false), "tagged_enum");
    assert_eq!(macro_name(Shape::Enum, Format::Json, true, false), "json_tagged_enum");
    assert_eq!(macro_name(Shape::Enum, Format::Beve, true, false), "beve_tagged_enum");
}

#[test]
fn a_struct_is_described_by_its_shape() {
    assert_eq!(macro_name(Shape::Object, Format::Both, false, false), "object");
    assert_eq!(macro_name(Shape::Array, Format::Json, false, false), "json_array");
    assert_eq!(macro_name(Shape::Transparent, Format::Beve, false, false), "beve_transparent");
    assert_eq!(macro_name(Shape::Object, Format::Beve, true, true), "beve_object");
}

#[test]
fn a_one_field_tuple_struct_is_pointed_at_transparent() {
    let one = no_keys(1);
    assert!(one.starts_with("a tuple struct has no field names to be keys."));
    assert!(one.contains("#[structio(transparent)]"));
    assert!(one.contains("#[structio(array)]"));

    for count in [0, 2, 5] {
        let many = no_keys(count);
        assert!(many.contains("#[structio(array)]"));
        assert!(!many.contains("transparent"));
        assert!(many.ends_with("or give the fields names"));
    }
}

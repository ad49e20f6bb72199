//! The declaration a derived type expands to, token by token.

use lib::declare::{
    array_body, enum_body, expand, impl_generics, object_body, transparent_body, type_tokens, BodyError,
    ContainerSpec, Delim, FieldAttr, FieldName, FieldSpec, InputShape, InputSpec, ParamSpec, Payload,
    Token, VariantSpec,
};
use lib::Format;

/// The tokens as source text: one space between tokens, none after a
/// punctuation character joined to the next.
fn render(tokens: &[Token]) -> String {
    let mut out = String::new();
    let mut glued = true;
    for t in tokens {
        if !glued {
            out.push(' ');
        }
        glued = false;
        match t {
            Token::Ident(s) | Token::Lit(s) => out.push_str(s),
            Token::Word(w) => out.push_str(w),
            Token::Punct(c, joint) => {
                out.push(*c);
                glued = *joint;
            }
            Token::Index(i) => out.push_str(&i.to_string()),
            Token::Open(Delim::Paren) => out.push('('),
            Token::Open(Delim::Bracket) => out.push('['),
            Token::Open(Delim::Brace) => out.push('{'),
            Token::Close(Delim::Paren) => out.push(')'),
            Token::Close(Delim::Bracket) => out.push(']'),
            Token::Close(Delim::Brace) => out.push('}'),
        }
    }
    out
}

fn field(name: &str) -> FieldSpec {
    FieldSpec {
        name: FieldName::Named(name.to_string()),
        skip: false,
        required: false,
        rename: None,
        aliases: Vec::new(),
        with: None,
    }
}

fn positional(index: usize) -> FieldSpec {
    FieldSpec { name: FieldName::Index(index), ..field("") }
}

fn variant(name: &str, payload: Payload) -> VariantSpec {
    VariantSpec { name: name.to_string(), payload, rename: None, aliases: Vec::new() }
}

fn lit(text: &str) -> String {
    format!("\"{text}\"")
}

fn default_root() -> Vec<Token> {
    vec![Token::Punct(':', true), Token::Punct(':', false), Token::Word("structio")]
}

fn container() -> ContainerSpec {
    ContainerSpec {
        format: Format::Both,
        transparent: false,
        array: false,
        element: None,
        write_only: false,
        rename_all: None,
        tag: None,
        root: default_root(),
    }
}

fn ident(name: &str) -> Token {
    Token::Ident(name.to_string())
}

#[test]
fn a_documented_struct_expands_to_exactly_its_declaration() {
    let mut required = field("focal_length");
    required.required = true;
    let mut renamed = field("sensitivity");
    renamed.rename = Some(lit("iso"));
    let mut skipped = field("cache");
    skipped.skip = true;
    let input = InputSpec {
        name: "Camera".to_string(),
        generics: Vec::new(),
        shape: InputShape::Struct(vec![required, renamed, skipped]),
        container: ContainerSpec { rename_all: Some(lit("camelCase")), ..container() },
    };
    let tokens = expand(&input).unwrap();
    assert_eq!(
        render(&tokens),
        r#":: structio :: object ! ( Camera as "camelCase" { # [ required ] focal_length , "iso" => sensitivity , .. } ) ;"#
    );
}

#[test]
fn generics_get_the_format_bound_and_default_appended() {
    let generics = vec![
        ParamSpec::Lifetime { lifetime: vec![Token::Punct('\'', true), ident("a")], bounds: Vec::new() },
        ParamSpec::Type { name: "T".to_string(), bounds: vec![ident("Clone"), Token::Punct('+', false), ident("PartialEq")] },
        ParamSpec::Const {
            name: "N".to_string(),
            decl: vec![Token::Ident("const".to_string()), ident("N"), Token::Punct(':', false), ident("usize")],
        },
    ];
    let input = InputSpec {
        name: "Page".to_string(),
        generics,
        shape: InputShape::Struct(vec![field("label"), field("items")]),
        container: container(),
    };
    let tokens = expand(&input).unwrap();
    assert_eq!(
        render(&tokens),
        ":: structio :: object ! ( [ 'a , T : Clone + PartialEq + :: structio :: ReadWrite + :: core :: default :: Default , \
         const N : usize ] Page < 'a , T , N > { label , items , } ) ;"
    );
}

#[test]
fn a_write_only_type_appends_the_write_bound_alone() {
    let params = vec![ParamSpec::Type { name: "T".to_string(), bounds: Vec::new() }];
    let tokens = impl_generics(&params, &default_root(), Format::Both, true);
    assert_eq!(render(&tokens), "T : :: structio :: Write");
}

#[test]
fn one_format_narrows_the_bound_to_its_module() {
    let params = vec![ParamSpec::Type { name: "T".to_string(), bounds: Vec::new() }];
    let json = impl_generics(&params, &default_root(), Format::Json, false);
    assert_eq!(render(&json), "T : :: structio :: json :: ReadWrite + :: core :: default :: Default");
    let beve = impl_generics(&params, &default_root(), Format::Beve, true);
    assert_eq!(render(&beve), "T : :: structio :: beve :: Write");
}

#[test]
fn a_lifetime_keeps_its_bounds() {
    let params = vec![
        ParamSpec::Lifetime { lifetime: vec![Token::Punct('\'', true), ident("a")], bounds: Vec::new() },
        ParamSpec::Lifetime {
            lifetime: vec![Token::Punct('\'', true), ident("b")],
            bounds: vec![Token::Punct('\'', true), ident("a")],
        },
    ];
    assert_eq!(render(&impl_generics(&params, &default_root(), Format::Both, false)), "'a , 'b : 'a");
    assert_eq!(render(&type_tokens(&"Pair".to_string(), &params)), "Pair < 'a , 'b >");
}

#[test]
fn a_type_without_parameters_is_its_name_alone() {
    let tokens = type_tokens(&"Plain".to_string(), &[]);
    assert_eq!(tokens, vec![ident("Plain")]);
}

#[test]
fn aliases_and_adapters_follow_the_field() {
    let mut f = field("stamp");
    f.aliases = vec![lit("ts"), lit("time")];
    f.with = Some(vec![ident("Vec"), Token::Punct('<', false), ident("Millis"), Token::Punct('>', false)]);
    let tokens = object_body(&[f], false).unwrap();
    assert_eq!(render(&tokens), r#"{ stamp as Vec < Millis > | "ts" | "time" , }"#);
}

#[test]
fn a_tuple_struct_has_no_keys() {
    assert_eq!(object_body(&[positional(0)], false), Err(BodyError::NoKeys(1)));
    assert_eq!(object_body(&[positional(0), positional(1)], false), Err(BodyError::NoKeys(2)));
}

#[test]
fn required_and_aliases_are_refused_on_a_write_only_type() {
    let mut required = field("b");
    required.required = true;
    assert_eq!(object_body(&[field("a"), required], true), Err(BodyError::RequiredWhenWriteOnly(1)));

    let mut aliased = field("a");
    aliased.aliases = vec![lit("x")];
    assert_eq!(object_body(&[aliased], true), Err(BodyError::AliasWhenWriteOnly(0)));
}

#[test]
fn a_skipped_field_is_not_checked() {
    let mut skipped = field("cache");
    skipped.skip = true;
    skipped.required = true;
    let tokens = object_body(&[field("a"), skipped], true).unwrap();
    assert_eq!(render(&tokens), "{ a , .. }");
}

#[test]
fn a_write_only_declaration_says_so() {
    let input = InputSpec {
        name: "Reading".to_string(),
        generics: Vec::new(),
        shape: InputShape::Struct(vec![field("channel"), field("celsius")]),
        container: ContainerSpec { write_only: true, format: Format::Json, ..container() },
    };
    let tokens = expand(&input).unwrap();
    assert_eq!(render(&tokens), ":: structio :: json_object ! ( write_only Reading { channel , celsius , } ) ;");
}

#[test]
fn a_transparent_struct_is_its_one_field() {
    let mut f = positional(0);
    f.with = Some(vec![ident("Millis")]);
    let tokens = transparent_body(&[f]).unwrap();
    assert_eq!(render(&tokens), "{ 0 as Millis }");

    let input = InputSpec {
        name: "Meters".to_string(),
        generics: Vec::new(),
        shape: InputShape::Struct(vec![positional(0)]),
        container: ContainerSpec { transparent: true, rename_all: Some(lit("camelCase")), ..container() },
    };
    assert_eq!(render(&expand(&input).unwrap()), ":: structio :: transparent ! ( Meters { 0 } ) ;");
}

#[test]
fn a_transparent_struct_takes_exactly_one_field() {
    assert_eq!(transparent_body(&[]), Err(BodyError::NotOneField(0)));
    assert_eq!(transparent_body(&[field("a"), field("b")]), Err(BodyError::NotOneField(2)));
}

#[test]
fn a_transparent_field_takes_only_an_adapter() {
    let mut renamed = field("a");
    renamed.rename = Some(lit("x"));
    renamed.skip = true;
    assert_eq!(transparent_body(&[renamed]), Err(BodyError::NothingToApply(FieldAttr::Rename)));
    let mut aliased = field("a");
    aliased.aliases = vec![lit("x")];
    aliased.required = true;
    assert_eq!(transparent_body(&[aliased]), Err(BodyError::NothingToApply(FieldAttr::Alias)));
    let mut required = field("a");
    required.required = true;
    assert_eq!(transparent_body(&[required]), Err(BodyError::NothingToApply(FieldAttr::Required)));
    let mut skipped = field("a");
    skipped.skip = true;
    assert_eq!(transparent_body(&[skipped]), Err(BodyError::NothingToApply(FieldAttr::Skip)));
}

#[test]
fn an_array_lists_its_fields_by_position() {
    let mut skipped = positional(1);
    skipped.skip = true;
    let tokens = array_body(&[positional(0), skipped, positional(2)], &None);
    assert_eq!(render(&tokens), "[ 0 , 2 , .. ]");
    let element = Some(vec![ident("u8")]);
    let tokens = array_body(&[positional(0), positional(1)], &element);
    assert_eq!(render(&tokens), "[ u8 ; 0 , 1 , ]");

    let input = InputSpec {
        name: "Rgb".to_string(),
        generics: Vec::new(),
        shape: InputShape::Struct(vec![positional(0), positional(1), positional(2)]),
        container: ContainerSpec { array: true, element, format: Format::Beve, ..container() },
    };
    assert_eq!(render(&expand(&input).unwrap()), ":: structio :: beve_array ! ( Rgb [ u8 ; 0 , 1 , 2 , ] ) ;");
}

#[test]
fn a_documented_unit_enum() {
    let mut warning = variant("Warning", Payload::Unit);
    warning.rename = Some(lit("WARN"));
    let input = InputSpec {
        name: "Level".to_string(),
        generics: Vec::new(),
        shape: InputShape::Enum(vec![variant("Info", Payload::Unit), warning]),
        container: ContainerSpec { rename_all: Some(lit("snake_case")), ..container() },
    };
    assert_eq!(
        render(&expand(&input).unwrap()),
        r#":: structio :: unit_enum ! ( Level as "snake_case" { Info , "WARN" => Warning , } ) ;"#
    );
}

#[test]
fn a_documented_tagged_enum() {
    let input = InputSpec {
        name: "Shape".to_string(),
        generics: Vec::new(),
        shape: InputShape::Enum(vec![variant("Empty", Payload::Unit), variant("Circle", Payload::One)]),
        container: ContainerSpec { tag: Some(lit("kind")), ..container() },
    };
    assert_eq!(
        render(&expand(&input).unwrap()),
        r#":: structio :: tagged_enum ! ( Shape as tag "kind" { Empty , Circle ( _ ) , } ) ;"#
    );
}

#[test]
fn a_narrowed_unit_enum_is_tagged() {
    let input = InputSpec {
        name: "Level".to_string(),
        generics: Vec::new(),
        shape: InputShape::Enum(vec![variant("Info", Payload::Unit)]),
        container: ContainerSpec { format: Format::Json, ..container() },
    };
    assert_eq!(render(&expand(&input).unwrap()), ":: structio :: json_tagged_enum ! ( Level { Info , } ) ;");
}

#[test]
fn variant_aliases_follow_the_variant() {
    let mut v = variant("Info", Payload::One);
    v.aliases = vec![lit("information"), lit("i")];
    let tokens = enum_body(&[v], false).unwrap();
    assert_eq!(render(&tokens), r#"{ Info ( _ ) | "information" | "i" , }"#);
}

#[test]
fn variants_the_macros_cannot_take_are_refused() {
    let vs = [variant("A", Payload::Unit), variant("B", Payload::Many)];
    assert_eq!(enum_body(&vs, false), Err(BodyError::ManyFields(1)));
    let vs = [variant("A", Payload::Named), variant("B", Payload::Many)];
    assert_eq!(enum_body(&vs, false), Err(BodyError::NamedFields(0)));
    let mut aliased = variant("A", Payload::Unit);
    aliased.aliases = vec![lit("a")];
    assert_eq!(enum_body(&[aliased], true), Err(BodyError::VariantAliasWhenWriteOnly(0)));
}

#[test]
fn an_enum_with_no_variants_is_refused() {
    let input = InputSpec {
        name: "Never".to_string(),
        generics: Vec::new(),
        shape: InputShape::Enum(Vec::new()),
        container: container(),
    };
    assert_eq!(expand(&input), Err(BodyError::NoVariants));
}

#[test]
fn another_root_path_is_used_throughout() {
    let root = vec![ident("my_structio")];
    let input = InputSpec {
        name: "W".to_string(),
        generics: vec![ParamSpec::Type { name: "T".to_string(), bounds: Vec::new() }],
        shape: InputShape::Struct(vec![field("inner")]),
        container: ContainerSpec { root, ..container() },
    };
    assert_eq!(
        render(&expand(&input).unwrap()),
        "my_structio :: object ! ( [ T : my_structio :: ReadWrite + :: core :: default :: Default ] W < T > { inner , } ) ;"
    );
}

#[test]
fn the_default_root_is_the_crate_at_the_top_level() {
    assert_eq!(lib::declare::default_root(), default_root());
}

//! The declaration a derived type expands to, token by token.
//!
//! A derive reads a struct or an enum and writes the `object!`, `array!`,
//! `transparent!`, `unit_enum!` or `tagged_enum!` call that describes it.
//! Here that call is built from a plain description of the type: its name,
//! its generic parameters, its fields or variants with the attributes they
//! carry, and the container's own attributes. The tokens come out flat, a
//! delimited group being its opening, its contents and its closing.
//!
//! Every function states the exact token sequence it builds, or the one
//! refusal it answers with, over the spec functions below.

use vstd::prelude::*;
use crate::emit::{format_word, macro_name, macro_word, per_format, Format, Shape};

verus! {

/// The delimiters of a group.
#[derive(Clone, Copy, Debug, PartialEq, Eq, Structural)]
pub enum Delim {
    /// `( .. )`
    Paren,
    /// `[ .. ]`
    Bracket,
    /// `{ .. }`
    Brace,
}

/// One token of a declaration.
#[derive(Debug, PartialEq, Eq)]
pub enum Token {
    /// A name that came from the type: of a field, a variant, the type
    /// itself or one of its parameters.
    Ident(String),
    /// A name the expansion adds: a keyword of the declaration macros, a
    /// path segment of a bound, the macro's own name.
    Word(&'static str),
    /// A punctuation character; `true` when it is joined to the next one,
    /// as the first `:` of `::` is.
    Punct(char, bool),
    /// A string literal from an attribute, as its source spelled it.
    Lit(String),
    /// The position of a tuple struct's field.
    Index(usize),
    /// The opening of a group.
    Open(Delim),
    /// The closing of a group.
    Close(Delim),
}

/// A field's name: the identifier of a named field, or a tuple struct
/// field's position.
#[derive(Debug, PartialEq, Eq)]
pub enum FieldName {
    /// A named field.
    Named(String),
    /// A tuple struct's field.
    Index(usize),
}

/// A field and the attributes it carries.
#[derive(Debug)]
pub struct FieldSpec {
    /// The field's name.
    pub name: FieldName,
    /// `skip`: the field is left out of the declaration.
    pub skip: bool,
    /// `required`: a document that leaves the member out is refused.
    pub required: bool,
    /// `rename = ".."`: the key it is written under, as a literal.
    pub rename: Option<String>,
    /// `alias = ".."`: further keys a document may use, as literals.
    pub aliases: Vec<String>,
    /// `with = ".."`: the adapter type it is read and written through.
    pub with: Option<Vec<Token>>,
}

/// What a variant carries.
#[derive(Clone, Copy, Debug, PartialEq, Eq, Structural)]
pub enum Payload {
    /// Nothing.
    Unit,
    /// One unnamed field.
    One,
    /// Several unnamed fields.
    Many,
    /// Named fields.
    Named,
}

/// An enum's variant and the attributes it carries.
#[derive(Debug)]
pub struct VariantSpec {
    /// The variant's name.
    pub name: String,
    /// What it carries.
    pub payload: Payload,
    /// `rename = ".."`: the name it is written under, as a literal.
    pub rename: Option<String>,
    /// `alias = ".."`: further names a document may use, as literals.
    pub aliases: Vec<String>,
}

/// A generic parameter as the type declares it.
#[derive(Debug)]
pub enum ParamSpec {
    /// A lifetime: its tokens, and the tokens of its bounds.
    Lifetime { lifetime: Vec<Token>, bounds: Vec<Token> },
    /// A const parameter: its name, and its whole declaration.
    Const { name: String, decl: Vec<Token> },
    /// A type parameter: its name, and the tokens of its own bounds.
    Type { name: String, bounds: Vec<Token> },
}

/// What is declared: a struct's fields, or an enum's variants.
#[derive(Debug)]
pub enum InputShape {
    /// A struct, named or tuple.
    Struct(Vec<FieldSpec>),
    /// An enum.
    Enum(Vec<VariantSpec>),
}

/// The container's attributes, settled.
#[derive(Debug)]
pub struct ContainerSpec {
    /// The formats the declaration covers.
    pub format: Format,
    /// `transparent`: a struct written as its one field.
    pub transparent: bool,
    /// `array`: a struct written positionally.
    pub array: bool,
    /// `element = ".."`: the adapter an array's elements go through.
    pub element: Option<Vec<Token>>,
    /// `write_only`: the type is written and never read.
    pub write_only: bool,
    /// `rename_all = ".."`: the case its keys are written in, as a literal.
    pub rename_all: Option<String>,
    /// `tag = ".."`: the key an enum's variant name goes under, as a literal.
    pub tag: Option<String>,
    /// The path the declaration macros are reached by: `::structio`, or the
    /// one `crate = ".."` gave.
    pub root: Vec<Token>,
}

/// A type to declare.
#[derive(Debug)]
pub struct InputSpec {
    /// The type's name.
    pub name: String,
    /// Its generic parameters, in order.
    pub generics: Vec<ParamSpec>,
    /// Its fields or variants.
    pub shape: InputShape,
    /// Its container attributes.
    pub container: ContainerSpec,
}

/// An attribute a transparent struct's one field cannot take.
#[derive(Clone, Copy, Debug, PartialEq, Eq, Structural)]
pub enum FieldAttr {
    /// `rename`
    Rename,
    /// `alias`
    Alias,
    /// `required`
    Required,
    /// `skip`
    Skip,
}

/// Why a type cannot be declared as asked. A position counts fields or
/// variants from zero.
#[derive(Clone, Copy, Debug, PartialEq, Eq, Structural)]
pub enum BodyError {
    /// A tuple struct of this many fields, declared as an object: its
    /// fields have no names to be keys.
    NoKeys(usize),
    /// `required` on the field at this position of a `write_only` type,
    /// which is never read.
    RequiredWhenWriteOnly(usize),
    /// An alias on the field at this position of a `write_only` type, which
    /// is never read.
    AliasWhenWriteOnly(usize),
    /// `transparent` on a struct of this many fields, not one.
    NotOneField(usize),
    /// An attribute the one field of a transparent struct has nothing to
    /// apply to.
    NothingToApply(FieldAttr),
    /// The variant at this position carries several values.
    ManyFields(usize),
    /// The variant at this position has named fields.
    NamedFields(usize),
    /// An alias on the variant at this position of a `write_only` type.
    VariantAliasWhenWriteOnly(usize),
    /// An enum with no variants, which has no value to write.
    NoVariants,
}

/// A built token sequence, or the refusal, with the tokens as a sequence.
pub open spec fn tokens_of(r: Result<Vec<Token>, BodyError>) -> Result<Seq<Token>, BodyError> {
    match r {
        Ok(v) => Ok(v@),
        Err(e) => Err(e),
    }
}

/// `::`
pub open spec fn path_sep() -> Seq<Token> {
    seq![Token::Punct(':', true), Token::Punct(':', false)]
}

/// `..`, which tells the macro that a field was left out on purpose.
pub open spec fn rest_marker() -> Seq<Token> {
    seq![Token::Punct('.', true), Token::Punct('.', false)]
}

/// `inner` between the delimiters `d`.
pub open spec fn grouped(d: Delim, inner: Seq<Token>) -> Seq<Token> {
    seq![Token::Open(d)] + inner + seq![Token::Close(d)]
}

/// `#[required]`
pub open spec fn required_marker() -> Seq<Token> {
    seq![
        Token::Punct('#', false),
        Token::Open(Delim::Bracket),
        Token::Word("required"),
        Token::Close(Delim::Bracket),
    ]
}

/// `"key" =>` for a renamed field or variant, and nothing otherwise.
pub open spec fn renamed(rename: Option<String>) -> Seq<Token> {
    match rename {
        Some(key) => seq![Token::Lit(key), Token::Punct('=', true), Token::Punct('>', false)],
        None => Seq::empty(),
    }
}

/// `| "alias"` for each alias, in order.
pub open spec fn alias_tokens(aliases: Seq<String>) -> Seq<Token>
    decreases aliases.len(),
{
    if aliases.len() == 0 {
        Seq::empty()
    } else {
        alias_tokens(aliases.drop_last()) + seq![Token::Punct('|', false), Token::Lit(aliases.last())]
    }
}

/// `as With` for a field read and written through an adapter, and nothing
/// otherwise.
pub open spec fn adapted(with: Option<Vec<Token>>) -> Seq<Token> {
    match with {
        Some(w) => seq![Token::Word("as")] + w@,
        None => Seq::empty(),
    }
}

/// The token that names a field.
pub open spec fn name_token(name: FieldName) -> Token {
    match name {
        FieldName::Named(s) => Token::Ident(s),
        FieldName::Index(i) => Token::Index(i),
    }
}

/// A copy of `t`.
pub fn copy_token(t: &Token) -> (r: Token)
    ensures
        r == *t,
{
    match t {
        Token::Ident(s) => Token::Ident(s.clone()),
        Token::Word(w) => Token::Word(*w),
        Token::Punct(c, joint) => Token::Punct(*c, *joint),
        Token::Lit(s) => Token::Lit(s.clone()),
        Token::Index(i) => Token::Index(*i),
        Token::Open(d) => Token::Open(*d),
        Token::Close(d) => Token::Close(*d),
    }
}

/// Append a copy of each of `ts` to `out`.
fn append_tokens(out: &mut Vec<Token>, ts: &Vec<Token>)
    ensures
        final(out)@ == old(out)@ + ts@,
{
    let ghost start = out@;
    let mut i: usize = 0;
    while i < ts.len()
        invariant
            i <= ts@.len(),
            out@ == start + ts@.take(i as int),
        decreases ts@.len() - i,
    {
        out.push(copy_token(&ts[i]));
        proof {
            assert(ts@.take(i + 1) =~= ts@.take(i as int).push(ts@[i as int]));
        }
        i = i + 1;
    }
    assert(ts@.take(ts@.len() as int) =~= ts@);
}

/// Append `"key" =>` for a renamed field or variant.
fn append_rename(out: &mut Vec<Token>, rename: &Option<String>)
    ensures
        final(out)@ == old(out)@ + renamed(*rename),
{
    match rename {
        Some(key) => {
            out.push(Token::Lit(key.clone()));
            out.push(Token::Punct('=', true));
            out.push(Token::Punct('>', false));
        },
        None => {},
    }
    assert(out@ =~= old(out)@ + renamed(*rename));
}

/// Append `| "alias"` for each alias.
fn append_aliases(out: &mut Vec<Token>, aliases: &Vec<String>)
    ensures
        final(out)@ == old(out)@ + alias_tokens(aliases@),
{
    let ghost start = out@;
    let mut i: usize = 0;
    assert(aliases@.take(0) =~= Seq::<String>::empty());
    while i < aliases.len()
        invariant
            i <= aliases@.len(),
            out@ == start + alias_tokens(aliases@.take(i as int)),
        decreases aliases@.len() - i,
    {
        out.push(Token::Punct('|', false));
        out.push(Token::Lit(aliases[i].clone()));
        proof {
            let next = aliases@.take(i + 1);
            assert(next.drop_last() =~= aliases@.take(i as int));
            assert(next.last() == aliases@[i as int]);
            assert(out@ =~= start + alias_tokens(next));
        }
        i = i + 1;
    }
    assert(aliases@.take(aliases@.len() as int) =~= aliases@);
}

/// Append `as With` for a field with an adapter.
fn append_adapter(out: &mut Vec<Token>, with: &Option<Vec<Token>>)
    ensures
        final(out)@ == old(out)@ + adapted(*with),
{
    match with {
        Some(w) => {
            out.push(Token::Word("as"));
            append_tokens(out, w);
        },
        None => {},
    }
    assert(out@ =~= old(out)@ + adapted(*with));
}

/// Append the token that names a field.
fn append_name(out: &mut Vec<Token>, name: &FieldName)
    ensures
        final(out)@ == old(out)@.push(name_token(*name)),
{
    match name {
        FieldName::Named(s) => out.push(Token::Ident(s.clone())),
        FieldName::Index(i) => out.push(Token::Index(*i)),
    }
}

// ---------------------------------------------------------------------------
// An object
// ---------------------------------------------------------------------------

/// One field of an object, the field at `at`: `#[required] "key" => name
/// as With | "alias",`, each part there when the field asks for it. A
/// `write_only` type is never read, so neither `required` nor an alias,
/// both rules about reading, has anything to apply to there.
pub open spec fn object_member(f: FieldSpec, at: usize, write_only: bool) -> Result<Seq<Token>, BodyError> {
    if f.required && write_only {
        Err(BodyError::RequiredWhenWriteOnly(at))
    } else if f.aliases@.len() > 0 && write_only {
        Err(BodyError::AliasWhenWriteOnly(at))
    } else {
        Ok((if f.required {
            required_marker()
        } else {
            Seq::empty()
        }) + renamed(f.rename) + seq![name_token(f.name)] + adapted(f.with) + alias_tokens(
            f.aliases@,
        ) + seq![Token::Punct(',', false)])
    }
}

/// The members the first `n` fields make, and whether any of them was
/// skipped; or the first refusal among them.
pub open spec fn object_members(fields: Seq<FieldSpec>, n: int, write_only: bool) -> Result<
    (Seq<Token>, bool),
    BodyError,
>
    decreases n,
{
    if n <= 0 {
        Ok((Seq::empty(), false))
    } else {
        match object_members(fields, n - 1, write_only) {
            Err(e) => Err(e),
            Ok((toks, skipped)) => if fields[n - 1].skip {
                Ok((toks, true))
            } else {
                match object_member(fields[n - 1], (n - 1) as usize, write_only) {
                    Err(e) => Err(e),
                    Ok(t) => Ok((toks + t, skipped)),
                }
            },
        }
    }
}

/// A refusal among the first `k` fields is the refusal among the first
/// `n`, for any `n` past `k`.
proof fn lemma_members_refused(fields: Seq<FieldSpec>, k: int, n: int, write_only: bool)
    requires
        0 <= k <= n,
        object_members(fields, k, write_only) is Err,
    ensures
        object_members(fields, n, write_only) == object_members(fields, k, write_only),
    decreases n - k,
{
    if n > k {
        lemma_members_refused(fields, k, n - 1, write_only);
    }
}

/// An object's body: `{ member, member, .. }`, the `..` there when a field
/// was skipped. A tuple struct has no names to be keys and is refused.
pub open spec fn spec_object_body(fields: Seq<FieldSpec>, write_only: bool) -> Result<Seq<Token>, BodyError> {
    if fields.len() > 0 && fields[0].name is Index {
        Err(BodyError::NoKeys(fields.len() as usize))
    } else {
        match object_members(fields, fields.len() as int, write_only) {
            Err(e) => Err(e),
            Ok((toks, skipped)) => Ok(grouped(
                Delim::Brace,
                toks + if skipped {
                    rest_marker()
                } else {
                    Seq::empty()
                },
            )),
        }
    }
}

/// Append `#[required]`.
fn append_required(out: &mut Vec<Token>)
    ensures
        final(out)@ == old(out)@ + required_marker(),
{
    out.push(Token::Punct('#', false));
    out.push(Token::Open(Delim::Bracket));
    out.push(Token::Word("required"));
    out.push(Token::Close(Delim::Bracket));
    assert(out@ =~= old(out)@ + required_marker());
}

/// Append `..`.
fn append_rest(out: &mut Vec<Token>)
    ensures
        final(out)@ == old(out)@ + rest_marker(),
{
    out.push(Token::Punct('.', true));
    out.push(Token::Punct('.', false));
    assert(out@ =~= old(out)@ + rest_marker());
}

/// The body of an object declaration, as [`spec_object_body`] states it.
pub fn object_body(fields: &[FieldSpec], write_only: bool) -> (r: Result<Vec<Token>, BodyError>)
    ensures
        tokens_of(r) == spec_object_body(fields@, write_only),
{
    if fields.len() > 0 {
        if let FieldName::Index(_) = fields[0].name {
            return Err(BodyError::NoKeys(fields.len()));
        }
    }
    let mut body: Vec<Token> = Vec::new();
    body.push(Token::Open(Delim::Brace));
    let ghost mut inner: Seq<Token> = Seq::empty();
    let mut skipped = false;
    let mut i: usize = 0;
    while i < fields.len()
        invariant
            i <= fields@.len(),
            !(fields@.len() > 0 && fields@[0].name is Index),
            object_members(fields@, i as int, write_only) == Ok::<(Seq<Token>, bool), BodyError>(
                (inner, skipped),
            ),
            body@ == seq![Token::Open(Delim::Brace)] + inner,
        decreases fields@.len() - i,
    {
        let f = &fields[i];
        if f.skip {
            skipped = true;
        } else {
            let ghost before = body@;
            if f.required {
                if write_only {
                    proof {
                        assert(object_members(fields@, i + 1, write_only) == Err::<
                            (Seq<Token>, bool),
                            BodyError,
                        >(BodyError::RequiredWhenWriteOnly(i)));
                        lemma_members_refused(fields@, i + 1, fields@.len() as int, write_only);
                    }
                    return Err(BodyError::RequiredWhenWriteOnly(i));
                }
                append_required(&mut body);
            }
            if f.aliases.len() > 0 && write_only {
                proof {
                    assert(object_members(fields@, i + 1, write_only) == Err::<
                        (Seq<Token>, bool),
                        BodyError,
                    >(BodyError::AliasWhenWriteOnly(i)));
                    lemma_members_refused(fields@, i + 1, fields@.len() as int, write_only);
                }
                return Err(BodyError::AliasWhenWriteOnly(i));
            }
            append_rename(&mut body, &f.rename);
            append_name(&mut body, &f.name);
            append_adapter(&mut body, &f.with);
            append_aliases(&mut body, &f.aliases);
            body.push(Token::Punct(',', false));
            proof {
                let member = object_member(*f, i, write_only)->Ok_0;
                assert(body@ =~= before + member);
                inner = inner + member;
                assert(body@ =~= seq![Token::Open(Delim::Brace)] + inner);
            }
        }
        i = i + 1;
    }
    if skipped {
        append_rest(&mut body);
    }
    body.push(Token::Close(Delim::Brace));
    proof {
        assert(body@ =~= grouped(
            Delim::Brace,
            inner + if skipped {
                rest_marker()
            } else {
                Seq::empty()
            },
        ));
    }
    Ok(body)
}

// ---------------------------------------------------------------------------
// A transparent struct and an array
// ---------------------------------------------------------------------------

/// The first attribute, in the order `rename`, `alias`, `required`, `skip`,
/// that a transparent struct's one field carries and cannot use: written as
/// that field alone, the struct has no key, is never an absent member, and
/// skipping the field would leave nothing to write.
pub open spec fn first_inapplicable(f: FieldSpec) -> Option<FieldAttr> {
    if f.rename is Some {
        Some(FieldAttr::Rename)
    } else if f.aliases@.len() > 0 {
        Some(FieldAttr::Alias)
    } else if f.required {
        Some(FieldAttr::Required)
    } else if f.skip {
        Some(FieldAttr::Skip)
    } else {
        None
    }
}

/// A transparent struct's body: `{ field }` or `{ field as With }`. The
/// struct must have exactly one field, carrying nothing but `with`.
pub open spec fn spec_transparent_body(fields: Seq<FieldSpec>) -> Result<Seq<Token>, BodyError> {
    if fields.len() != 1 {
        Err(BodyError::NotOneField(fields.len() as usize))
    } else {
        match first_inapplicable(fields[0]) {
            Some(a) => Err(BodyError::NothingToApply(a)),
            None => Ok(grouped(Delim::Brace, seq![name_token(fields[0].name)] + adapted(fields[0].with))),
        }
    }
}

/// The body of a transparent declaration, as [`spec_transparent_body`]
/// states it.
pub fn transparent_body(fields: &[FieldSpec]) -> (r: Result<Vec<Token>, BodyError>)
    ensures
        tokens_of(r) == spec_transparent_body(fields@),
{
    if fields.len() != 1 {
        return Err(BodyError::NotOneField(fields.len()));
    }
    let field = &fields[0];
    if field.rename.is_some() {
        return Err(BodyError::NothingToApply(FieldAttr::Rename));
    }
    if field.aliases.len() > 0 {
        return Err(BodyError::NothingToApply(FieldAttr::Alias));
    }
    if field.required {
        return Err(BodyError::NothingToApply(FieldAttr::Required));
    }
    if field.skip {
        return Err(BodyError::NothingToApply(FieldAttr::Skip));
    }
    let mut body: Vec<Token> = Vec::new();
    body.push(Token::Open(Delim::Brace));
    append_name(&mut body, &field.name);
    append_adapter(&mut body, &field.with);
    body.push(Token::Close(Delim::Brace));
    assert(body@ =~= grouped(Delim::Brace, seq![name_token(fields@[0].name)] + adapted(fields@[0].with)));
    Ok(body)
}

/// The positions the first `n` fields take, `name,` for each one that is
/// not skipped, and whether any was.
pub open spec fn array_members(fields: Seq<FieldSpec>, n: int) -> (Seq<Token>, bool)
    decreases n,
{
    if n <= 0 {
        (Seq::empty(), false)
    } else {
        let (toks, skipped) = array_members(fields, n - 1);
        if fields[n - 1].skip {
            (toks, true)
        } else {
            (toks + seq![name_token(fields[n - 1].name), Token::Punct(',', false)], skipped)
        }
    }
}

/// An array's body: `[ Elem ; a, b, .. ]`, the element adapter and its `;`
/// there when the container names one, the `..` when a field was skipped.
pub open spec fn spec_array_body(fields: Seq<FieldSpec>, element: Option<Vec<Token>>) -> Seq<Token> {
    let (toks, skipped) = array_members(fields, fields.len() as int);
    grouped(
        Delim::Bracket,
        (match element {
            Some(e) => e@ + seq![Token::Punct(';', false)],
            None => Seq::empty(),
        }) + toks + if skipped {
            rest_marker()
        } else {
            Seq::empty()
        },
    )
}

/// The body of an array declaration, as [`spec_array_body`] states it.
pub fn array_body(fields: &[FieldSpec], element: &Option<Vec<Token>>) -> (r: Vec<Token>)
    ensures
        r@ == spec_array_body(fields@, *element),
{
    let mut body: Vec<Token> = Vec::new();
    body.push(Token::Open(Delim::Bracket));
    match element {
        Some(e) => {
            append_tokens(&mut body, e);
            body.push(Token::Punct(';', false));
        },
        None => {},
    }
    let ghost head = body@;
    let ghost mut inner: Seq<Token> = Seq::empty();
    let mut skipped = false;
    let mut i: usize = 0;
    while i < fields.len()
        invariant
            i <= fields@.len(),
            array_members(fields@, i as int) == (inner, skipped),
            body@ == head + inner,
        decreases fields@.len() - i,
    {
        let f = &fields[i];
        if f.skip {
            skipped = true;
        } else {
            append_name(&mut body, &f.name);
            body.push(Token::Punct(',', false));
            proof {
                inner = inner + seq![name_token(f.name), Token::Punct(',', false)];
                assert(body@ =~= head + inner);
            }
        }
        i = i + 1;
    }
    if skipped {
        append_rest(&mut body);
    }
    body.push(Token::Close(Delim::Bracket));
    proof {
        assert(body@ =~= spec_array_body(fields@, *element));
    }
    body
}

// ---------------------------------------------------------------------------
// An enum
// ---------------------------------------------------------------------------

/// `(_)`, the hole a variant's one value fills.
pub open spec fn payload_hole() -> Seq<Token> {
    seq![Token::Open(Delim::Paren), Token::Word("_"), Token::Close(Delim::Paren)]
}

/// One variant, the variant at `at`: `"name" => Variant(_) | "alias",`,
/// each part there when the variant asks for it. A variant carries one
/// value at most, and a `write_only` type has no use for an alias.
pub open spec fn enum_member(v: VariantSpec, at: usize, write_only: bool) -> Result<Seq<Token>, BodyError> {
    match v.payload {
        Payload::Many => Err(BodyError::ManyFields(at)),
        Payload::Named => Err(BodyError::NamedFields(at)),
        _ => if v.aliases@.len() > 0 && write_only {
            Err(BodyError::VariantAliasWhenWriteOnly(at))
        } else {
            Ok(renamed(v.rename) + seq![Token::Ident(v.name)] + (if v.payload == Payload::One {
                payload_hole()
            } else {
                Seq::empty()
            }) + alias_tokens(v.aliases@) + seq![Token::Punct(',', false)])
        },
    }
}

/// The members the first `n` variants make, or the first refusal among
/// them.
pub open spec fn enum_members(variants: Seq<VariantSpec>, n: int, write_only: bool) -> Result<
    Seq<Token>,
    BodyError,
>
    decreases n,
{
    if n <= 0 {
        Ok(Seq::empty())
    } else {
        match enum_members(variants, n - 1, write_only) {
            Err(e) => Err(e),
            Ok(toks) => match enum_member(variants[n - 1], (n - 1) as usize, write_only) {
                Err(e) => Err(e),
                Ok(t) => Ok(toks + t),
            },
        }
    }
}

/// A refusal among the first `k` variants is the refusal among the first
/// `n`, for any `n` past `k`.
proof fn lemma_variants_refused(variants: Seq<VariantSpec>, k: int, n: int, write_only: bool)
    requires
        0 <= k <= n,
        enum_members(variants, k, write_only) is Err,
    ensures
        enum_members(variants, n, write_only) == enum_members(variants, k, write_only),
    decreases n - k,
{
    if n > k {
        lemma_variants_refused(variants, k, n - 1, write_only);
    }
}

/// An enum's body: `{ member, member, }`.
pub open spec fn spec_enum_body(variants: Seq<VariantSpec>, write_only: bool) -> Result<Seq<Token>, BodyError> {
    match enum_members(variants, variants.len() as int, write_only) {
        Err(e) => Err(e),
        Ok(toks) => Ok(grouped(Delim::Brace, toks)),
    }
}

/// The body of an enum declaration, as [`spec_enum_body`] states it.
pub fn enum_body(variants: &[VariantSpec], write_only: bool) -> (r: Result<Vec<Token>, BodyError>)
    ensures
        tokens_of(r) == spec_enum_body(variants@, write_only),
{
    let mut body: Vec<Token> = Vec::new();
    body.push(Token::Open(Delim::Brace));
    let ghost mut inner: Seq<Token> = Seq::empty();
    let mut i: usize = 0;
    while i < variants.len()
        invariant
            i <= variants@.len(),
            enum_members(variants@, i as int, write_only) == Ok::<Seq<Token>, BodyError>(inner),
            body@ == seq![Token::Open(Delim::Brace)] + inner,
        decreases variants@.len() - i,
    {
        let v = &variants[i];
        let refusal = match v.payload {
            Payload::Many => Some(BodyError::ManyFields(i)),
            Payload::Named => Some(BodyError::NamedFields(i)),
            _ => if v.aliases.len() > 0 && write_only {
                Some(BodyError::VariantAliasWhenWriteOnly(i))
            } else {
                None
            },
        };
        if let Some(e) = refusal {
            proof {
                assert(enum_members(variants@, i + 1, write_only) == Err::<Seq<Token>, BodyError>(e));
                lemma_variants_refused(variants@, i + 1, variants@.len() as int, write_only);
            }
            return Err(e);
        }
        let ghost before = body@;
        append_rename(&mut body, &v.rename);
        body.push(Token::Ident(v.name.clone()));
        if v.payload == Payload::One {
            body.push(Token::Open(Delim::Paren));
            body.push(Token::Word("_"));
            body.push(Token::Close(Delim::Paren));
        }
        append_aliases(&mut body, &v.aliases);
        body.push(Token::Punct(',', false));
        proof {
            let member = enum_member(*v, i, write_only)->Ok_0;
            assert(body@ =~= before + member);
            inner = inner + member;
            assert(body@ =~= seq![Token::Open(Delim::Brace)] + inner);
        }
        i = i + 1;
    }
    body.push(Token::Close(Delim::Brace));
    assert(body@ =~= grouped(Delim::Brace, inner));
    Ok(body)
}

// ---------------------------------------------------------------------------
// Generics
// ---------------------------------------------------------------------------

/// The format's module on the way to its bound: nothing for both formats,
/// `json::` or `beve::` for one.
pub open spec fn format_path(format: Format) -> Seq<Token> {
    match format {
        Format::Both => Seq::empty(),
        Format::Json => seq![Token::Word("json")] + path_sep(),
        Format::Beve => seq![Token::Word("beve")] + path_sep(),
    }
}

/// The bound appended to every type parameter: the format's `Write` for a
/// `write_only` type, which is never read; otherwise its `ReadWrite` and
/// `Default`, since a read constructs a value of the parameter to fill.
pub open spec fn appended_bound(root: Seq<Token>, format: Format, write_only: bool) -> Seq<Token> {
    root + path_sep() + format_path(format) + if write_only {
        seq![Token::Word("Write")]
    } else {
        seq![Token::Word("ReadWrite"), Token::Punct('+', false)] + path_sep() + seq![Token::Word("core")]
            + path_sep() + seq![Token::Word("default")] + path_sep() + seq![Token::Word("Default")]
    }
}

/// One parameter as the impls declare it: a lifetime or a const parameter
/// as the type declared it, a type parameter with the appended bound after
/// its own.
pub open spec fn param_decl(p: ParamSpec, root: Seq<Token>, format: Format, write_only: bool) -> Seq<Token> {
    match p {
        ParamSpec::Lifetime { lifetime, bounds } => lifetime@ + if bounds@.len() > 0 {
            seq![Token::Punct(':', false)] + bounds@
        } else {
            Seq::empty()
        },
        ParamSpec::Const { name: _, decl } => decl@,
        ParamSpec::Type { name, bounds } => seq![Token::Ident(name), Token::Punct(':', false)] + (if bounds@.len()
            > 0 {
            bounds@ + seq![Token::Punct('+', false)]
        } else {
            Seq::empty()
        }) + appended_bound(root, format, write_only),
    }
}

/// The first `n` parameters as the impls declare them, comma-separated.
pub open spec fn param_decls(
    params: Seq<ParamSpec>,
    n: int,
    root: Seq<Token>,
    format: Format,
    write_only: bool,
) -> Seq<Token>
    decreases n,
{
    if n <= 0 {
        Seq::empty()
    } else {
        param_decls(params, n - 1, root, format, write_only) + (if n - 1 > 0 {
            seq![Token::Punct(',', false)]
        } else {
            Seq::empty()
        }) + param_decl(params[n - 1], root, format, write_only)
    }
}

/// Append `::`.
fn append_path_sep(out: &mut Vec<Token>)
    ensures
        final(out)@ == old(out)@ + path_sep(),
{
    out.push(Token::Punct(':', true));
    out.push(Token::Punct(':', false));
    assert(out@ =~= old(out)@ + path_sep());
}

/// `::structio`, the path the declaration macros are reached by when the
/// container names no other.
pub fn default_root() -> (r: Vec<Token>)
    ensures
        r@ == path_sep() + seq![Token::Word("structio")],
{
    let mut out: Vec<Token> = Vec::new();
    append_path_sep(&mut out);
    out.push(Token::Word("structio"));
    assert(out@ =~= path_sep() + seq![Token::Word("structio")]);
    out
}

/// Append the bound every type parameter gets.
fn append_bound(out: &mut Vec<Token>, root: &Vec<Token>, format: Format, write_only: bool)
    ensures
        final(out)@ == old(out)@ + appended_bound(root@, format, write_only),
{
    append_tokens(out, root);
    append_path_sep(out);
    match format {
        Format::Both => {},
        Format::Json => {
            out.push(Token::Word("json"));
            append_path_sep(out);
        },
        Format::Beve => {
            out.push(Token::Word("beve"));
            append_path_sep(out);
        },
    }
    if write_only {
        out.push(Token::Word("Write"));
    } else {
        out.push(Token::Word("ReadWrite"));
        out.push(Token::Punct('+', false));
        append_path_sep(out);
        out.push(Token::Word("core"));
        append_path_sep(out);
        out.push(Token::Word("default"));
        append_path_sep(out);
        out.push(Token::Word("Default"));
    }
    assert(out@ =~= old(out)@ + appended_bound(root@, format, write_only));
}

/// Append one parameter as the impls declare it.
fn append_param_decl(out: &mut Vec<Token>, p: &ParamSpec, root: &Vec<Token>, format: Format, write_only: bool)
    ensures
        final(out)@ == old(out)@ + param_decl(*p, root@, format, write_only),
{
    match p {
        ParamSpec::Lifetime { lifetime, bounds } => {
            append_tokens(out, lifetime);
            if bounds.len() > 0 {
                out.push(Token::Punct(':', false));
                append_tokens(out, bounds);
            }
        },
        ParamSpec::Const { name: _, decl } => {
            append_tokens(out, decl);
        },
        ParamSpec::Type { name, bounds } => {
            out.push(Token::Ident(name.clone()));
            out.push(Token::Punct(':', false));
            if bounds.len() > 0 {
                append_tokens(out, bounds);
                out.push(Token::Punct('+', false));
            }
            append_bound(out, root, format, write_only);
        },
    }
    assert(out@ =~= old(out)@ + param_decl(*p, root@, format, write_only));
}

/// The impl generics, each parameter as declared with the bound the impls
/// need appended to every type parameter, as [`param_decls`] states them.
pub fn impl_generics(params: &[ParamSpec], root: &Vec<Token>, format: Format, write_only: bool) -> (r: Vec<
    Token,
>)
    ensures
        r@ == param_decls(params@, params@.len() as int, root@, format, write_only),
{
    let mut out: Vec<Token> = Vec::new();
    let mut i: usize = 0;
    while i < params.len()
        invariant
            i <= params@.len(),
            out@ == param_decls(params@, i as int, root@, format, write_only),
        decreases params@.len() - i,
    {
        let ghost before = out@;
        if i > 0 {
            out.push(Token::Punct(',', false));
        }
        append_param_decl(&mut out, &params[i], root, format, write_only);
        proof {
            assert(param_decls(params@, i + 1, root@, format, write_only) == param_decls(
                params@,
                i as int,
                root@,
                format,
                write_only,
            ) + (if i > 0 {
                seq![Token::Punct(',', false)]
            } else {
                Seq::empty()
            }) + param_decl(params@[i as int], root@, format, write_only));
            assert(out@ =~= param_decls(params@, i + 1, root@, format, write_only));
        }
        i = i + 1;
    }
    out
}

/// One parameter as the type's name takes it: a lifetime's tokens, or a
/// type or const parameter's name.
pub open spec fn param_use(p: ParamSpec) -> Seq<Token> {
    match p {
        ParamSpec::Lifetime { lifetime, bounds: _ } => lifetime@,
        ParamSpec::Const { name, decl: _ } => seq![Token::Ident(name)],
        ParamSpec::Type { name, bounds: _ } => seq![Token::Ident(name)],
    }
}

/// The first `n` parameters as the type's name takes them, comma-separated.
pub open spec fn param_uses(params: Seq<ParamSpec>, n: int) -> Seq<Token>
    decreases n,
{
    if n <= 0 {
        Seq::empty()
    } else {
        param_uses(params, n - 1) + (if n - 1 > 0 {
            seq![Token::Punct(',', false)]
        } else {
            Seq::empty()
        }) + param_use(params[n - 1])
    }
}

/// Append one parameter as the type's name takes it.
fn append_param_use(out: &mut Vec<Token>, p: &ParamSpec)
    ensures
        final(out)@ == old(out)@ + param_use(*p),
{
    match p {
        ParamSpec::Lifetime { lifetime, bounds: _ } => append_tokens(out, lifetime),
        ParamSpec::Const { name, decl: _ } => out.push(Token::Ident(name.clone())),
        ParamSpec::Type { name, bounds: _ } => out.push(Token::Ident(name.clone())),
    }
    assert(out@ =~= old(out)@ + param_use(*p));
}

/// `Name<'a, T, N>`, or `Name` alone.
pub open spec fn spec_type_tokens(name: String, params: Seq<ParamSpec>) -> Seq<Token> {
    seq![Token::Ident(name)] + if params.len() == 0 {
        Seq::empty()
    } else {
        seq![Token::Punct('<', false)] + param_uses(params, params.len() as int) + seq![
            Token::Punct('>', false),
        ]
    }
}

/// The type as the declaration names it, as [`spec_type_tokens`] states it.
pub fn type_tokens(name: &String, params: &[ParamSpec]) -> (r: Vec<Token>)
    ensures
        r@ == spec_type_tokens(*name, params@),
{
    let mut out: Vec<Token> = Vec::new();
    out.push(Token::Ident(name.clone()));
    if params.len() == 0 {
        assert(out@ =~= spec_type_tokens(*name, params@));
        return out;
    }
    out.push(Token::Punct('<', false));
    let ghost head = out@;
    let mut i: usize = 0;
    while i < params.len()
        invariant
            i <= params@.len(),
            head == seq![Token::Ident(*name), Token::Punct('<', false)],
            out@ == head + param_uses(params@, i as int),
        decreases params@.len() - i,
    {
        let ghost before = out@;
        if i > 0 {
            out.push(Token::Punct(',', false));
        }
        append_param_use(&mut out, &params[i]);
        proof {
            assert(param_uses(params@, i + 1) == param_uses(params@, i as int) + (if i > 0 {
                seq![Token::Punct(',', false)]
            } else {
                Seq::empty()
            }) + param_use(params@[i as int]));
            assert(out@ =~= head + param_uses(params@, i + 1));
        }
        i = i + 1;
    }
    out.push(Token::Punct('>', false));
    assert(out@ =~= spec_type_tokens(*name, params@));
    out
}

// ---------------------------------------------------------------------------
// The declaration
// ---------------------------------------------------------------------------

/// Every variant carries nothing.
pub open spec fn all_unit(variants: Seq<VariantSpec>) -> bool {
    forall|i: int| 0 <= i < variants.len() ==> #[trigger] variants[i].payload == Payload::Unit
}

/// What the shape settles: the macro's name, the case and the tag the
/// header names, and the body; or why the type cannot be declared.
pub open spec fn declared_parts(input: InputSpec) -> Result<
    (&'static str, Option<String>, Option<String>, Seq<Token>),
    BodyError,
> {
    let c = input.container;
    match input.shape {
        InputShape::Struct(fields) => if c.transparent {
            match spec_transparent_body(fields@) {
                Err(e) => Err(e),
                Ok(body) => Ok((format_word(c.format, "transparent"), None, None, body)),
            }
        } else if c.array {
            Ok((format_word(c.format, "array"), None, None, spec_array_body(fields@, c.element)))
        } else {
            match spec_object_body(fields@, c.write_only) {
                Err(e) => Err(e),
                Ok(body) => Ok((format_word(c.format, "object"), c.rename_all, None, body)),
            }
        },
        InputShape::Enum(variants) => if variants@.len() == 0 {
            Err(BodyError::NoVariants)
        } else {
            match spec_enum_body(variants@, c.write_only) {
                Err(e) => Err(e),
                Ok(body) => Ok((
                    macro_word(Shape::Enum, c.format, all_unit(variants@), c.tag is Some),
                    c.rename_all,
                    c.tag,
                    body,
                )),
            }
        },
    }
}

/// `as "case" tag "key"`, the parts there when the type has them, and
/// nothing when it has neither.
pub open spec fn header(case: Option<String>, tag: Option<String>) -> Seq<Token> {
    if case is Some || tag is Some {
        seq![Token::Word("as")] + (match case {
            Some(k) => seq![Token::Lit(k)],
            None => Seq::empty(),
        }) + (match tag {
            Some(t) => seq![Token::Word("tag"), Token::Lit(t)],
            None => Seq::empty(),
        })
    } else {
        Seq::empty()
    }
}

/// What goes between the macro call's parentheses: `write_only` for a type
/// never read, the impl generics in brackets, the type, the header, and the
/// body.
pub open spec fn call_tokens(
    input: InputSpec,
    case: Option<String>,
    tag: Option<String>,
    body: Seq<Token>,
) -> Seq<Token> {
    let c = input.container;
    (if c.write_only {
        seq![Token::Word("write_only")]
    } else {
        Seq::empty()
    }) + (if input.generics@.len() > 0 {
        grouped(
            Delim::Bracket,
            param_decls(input.generics@, input.generics@.len() as int, c.root@, c.format, c.write_only),
        )
    } else {
        Seq::empty()
    }) + spec_type_tokens(input.name, input.generics@) + header(case, tag) + body
}

/// The declaration a type expands to: `root::name!( call );`.
pub open spec fn spec_expand(input: InputSpec) -> Result<Seq<Token>, BodyError> {
    match declared_parts(input) {
        Err(e) => Err(e),
        Ok((name, case, tag, body)) => Ok(input.container.root@ + path_sep() + seq![
            Token::Word(name),
            Token::Punct('!', false),
        ] + grouped(Delim::Paren, call_tokens(input, case, tag, body)) + seq![Token::Punct(';', false)]),
    }
}

/// Whether every variant carries nothing.
fn every_variant_unit(variants: &Vec<VariantSpec>) -> (r: bool)
    ensures
        r == all_unit(variants@),
{
    let mut i: usize = 0;
    while i < variants.len()
        invariant
            i <= variants@.len(),
            forall|j: int| 0 <= j < i ==> #[trigger] variants@[j].payload == Payload::Unit,
        decreases variants@.len() - i,
    {
        if variants[i].payload != Payload::Unit {
            return false;
        }
        i = i + 1;
    }
    true
}

/// A copy of an optional literal.
fn copy_text(s: &Option<String>) -> (r: Option<String>)
    ensures
        r == *s,
{
    match s {
        Some(t) => Some(t.clone()),
        None => None,
    }
}

/// The shape's part of the declaration, as [`declared_parts`] states it.
fn parts(input: &InputSpec) -> (r: Result<(&'static str, Option<String>, Option<String>, Vec<Token>), BodyError>)
    ensures
        match r {
            Ok((name, case, tag, body)) => declared_parts(*input) == Ok::<
                (&'static str, Option<String>, Option<String>, Seq<Token>),
                BodyError,
            >((name, case, tag, body@)),
            Err(e) => declared_parts(*input) == Err::<
                (&'static str, Option<String>, Option<String>, Seq<Token>),
                BodyError,
            >(e),
        },
{
    let c = &input.container;
    match &input.shape {
        InputShape::Struct(fields) => {
            if c.transparent {
                match transparent_body(fields.as_slice()) {
                    Err(e) => Err(e),
                    Ok(body) => Ok((per_format(c.format, "transparent"), None, None, body)),
                }
            } else if c.array {
                Ok((per_format(c.format, "array"), None, None, array_body(fields.as_slice(), &c.element)))
            } else {
                match object_body(fields.as_slice(), c.write_only) {
                    Err(e) => Err(e),
                    Ok(body) => Ok((per_format(c.format, "object"), copy_text(&c.rename_all), None, body)),
                }
            }
        },
        InputShape::Enum(variants) => {
            if variants.len() == 0 {
                return Err(BodyError::NoVariants);
            }
            match enum_body(variants.as_slice(), c.write_only) {
                Err(e) => Err(e),
                Ok(body) => {
                    let unit = every_variant_unit(variants);
                    let name = macro_name(Shape::Enum, c.format, unit, c.tag.is_some());
                    Ok((name, copy_text(&c.rename_all), copy_text(&c.tag), body))
                },
            }
        },
    }
}

/// Append the header: `as "case" tag "key"`.
fn append_header(out: &mut Vec<Token>, case: Option<String>, tag: Option<String>)
    ensures
        final(out)@ == old(out)@ + header(case, tag),
{
    if case.is_some() || tag.is_some() {
        out.push(Token::Word("as"));
        match case {
            Some(k) => out.push(Token::Lit(k)),
            None => {},
        }
        match tag {
            Some(t) => {
                out.push(Token::Word("tag"));
                out.push(Token::Lit(t));
            },
            None => {},
        }
    }
    assert(out@ =~= old(out)@ + header(case, tag));
}

/// The declaration a type expands to, as [`spec_expand`] states it.
pub fn expand(input: &InputSpec) -> (r: Result<Vec<Token>, BodyError>)
    ensures
        tokens_of(r) == spec_expand(*input),
{
    let (name, case, tag, body) = match parts(input) {
        Ok(p) => p,
        Err(e) => {
            return Err(e);
        },
    };
    let c = &input.container;
    let mut out: Vec<Token> = Vec::new();
    append_tokens(&mut out, &c.root);
    append_path_sep(&mut out);
    out.push(Token::Word(name));
    out.push(Token::Punct('!', false));
    out.push(Token::Open(Delim::Paren));
    let ghost head = out@;
    let ghost case_spec = case;
    let ghost tag_spec = tag;
    if c.write_only {
        out.push(Token::Word("write_only"));
    }
    if input.generics.len() > 0 {
        out.push(Token::Open(Delim::Bracket));
        let generics = impl_generics(input.generics.as_slice(), &c.root, c.format, c.write_only);
        append_tokens(&mut out, &generics);
        out.push(Token::Close(Delim::Bracket));
    }
    let named = type_tokens(&input.name, input.generics.as_slice());
    append_tokens(&mut out, &named);
    append_header(&mut out, case, tag);
    append_tokens(&mut out, &body);
    proof {
        assert(out@ =~= head + call_tokens(*input, case_spec, tag_spec, body@));
    }
    out.push(Token::Close(Delim::Paren));
    out.push(Token::Punct(';', false));
    proof {
        assert(out@ =~= input.container.root@ + path_sep() + seq![
            Token::Word(name),
            Token::Punct('!', false),
        ] + grouped(Delim::Paren, call_tokens(*input, case_spec, tag_spec, body@)) + seq![
            Token::Punct(';', false),
        ]);
    }
    Ok(out)
}

// ---------------------------------------------------------------------------
// Laws
// ---------------------------------------------------------------------------

/// The macro a declaration calls: the word after the root path and its `::`.
pub open spec fn called_macro(input: InputSpec, toks: Seq<Token>) -> Token {
    toks[input.container.root@.len() as int + 2]
}

/// The first token between the macro call's parentheses.
pub open spec fn first_in_call(input: InputSpec, toks: Seq<Token>) -> Token {
    toks[input.container.root@.len() as int + 5]
}

/// The tagged enum macro for a format.
pub open spec fn tagged_word(format: Format) -> Token {
    match format {
        Format::Both => Token::Word("tagged_enum"),
        Format::Json => Token::Word("json_tagged_enum"),
        Format::Beve => Token::Word("beve_tagged_enum"),
    }
}

/// An enum is declared `unit_enum!` exactly when every one of its variants,
/// the last included, carries nothing, it has no tag, and it covers both
/// formats. Any variant that carries a value, or a tag, or one format,
/// makes it the format's tagged enum.
pub proof fn law_unit_enum_only_when_every_variant_is_unit(input: InputSpec)
    requires
        input.shape is Enum,
        spec_expand(input) is Ok,
    ensures
        ({
            let variants = input.shape->Enum_0@;
            let toks = spec_expand(input)->Ok_0;
            let unit = (forall|i: int| 0 <= i < variants.len() ==> #[trigger] variants[i].payload
                == Payload::Unit) && input.container.tag is None && input.container.format
                == Format::Both;
            &&& unit ==> called_macro(input, toks) == Token::Word("unit_enum")
            &&& !unit ==> called_macro(input, toks) == tagged_word(input.container.format)
        }),
{
    reveal_strlit("unit_enum");
    reveal_strlit("tagged_enum");
    reveal_strlit("object");
    reveal_strlit("array");
    reveal_strlit("transparent");
    let toks = spec_expand(input)->Ok_0;
    let r = input.container.root@.len() as int;
    let parts = declared_parts(input)->Ok_0;
    let call = call_tokens(input, parts.1, parts.2, parts.3);
    assert(toks == input.container.root@ + path_sep() + seq![
        Token::Word(parts.0),
        Token::Punct('!', false),
    ] + grouped(Delim::Paren, call) + seq![Token::Punct(';', false)]);
    assert(toks[r + 2] == Token::Word(parts.0));
    let variants = input.shape->Enum_0@;
    let c = input.container;
    assert(parts.0 == macro_word(Shape::Enum, c.format, all_unit(variants), c.tag is Some));
    assert("tagged_enum"@ != "object"@) by {
        assert("tagged_enum"@.len() != "object"@.len());
    }
    assert("tagged_enum"@ != "array"@) by {
        assert("tagged_enum"@.len() != "array"@.len());
    }
    assert("tagged_enum"@ != "transparent"@) by {
        assert("tagged_enum"@[1] != "transparent"@[1]);
    }
}

/// The members of the first `n` fields report a skip exactly when one of
/// those fields is skipped.
proof fn lemma_members_report_skips(fields: Seq<FieldSpec>, n: int, write_only: bool)
    requires
        0 <= n <= fields.len(),
        object_members(fields, n, write_only) is Ok,
    ensures
        object_members(fields, n, write_only)->Ok_0.1 <==> exists|i: int| 0 <= i < n && #[trigger] fields[i].skip,
    decreases n,
{
    if n > 0 {
        lemma_members_report_skips(fields, n - 1, write_only);
        if fields[n - 1].skip {
            assert(fields[n - 1].skip);
        } else {
            if exists|i: int| 0 <= i < n && #[trigger] fields[i].skip {
                let i = choose|i: int| 0 <= i < n && #[trigger] fields[i].skip;
                assert(i < n - 1);
            }
        }
    }
}

/// The positions of the first `n` fields report a skip exactly when one of
/// those fields is skipped.
proof fn lemma_positions_report_skips(fields: Seq<FieldSpec>, n: int)
    requires
        0 <= n <= fields.len(),
    ensures
        array_members(fields, n).1 <==> exists|i: int| 0 <= i < n && #[trigger] fields[i].skip,
    decreases n,
{
    if n > 0 {
        lemma_positions_report_skips(fields, n - 1);
        if !fields[n - 1].skip {
            if exists|i: int| 0 <= i < n && #[trigger] fields[i].skip {
                let i = choose|i: int| 0 <= i < n && #[trigger] fields[i].skip;
                assert(i < n - 1);
            }
        }
    }
}

/// A body that leaves a field out says so at its end: when any field is
/// skipped, the body closes with `.. }`, wherever the skipped field stood;
/// when none is, no `..` stands before the closing brace. This holds of an
/// object's body and of an array's.
pub proof fn law_rest_marker_closes_the_body(fields: Seq<FieldSpec>, write_only: bool, element: Option<Vec<Token>>)
    ensures
        spec_object_body(fields, write_only) matches Ok(toks) ==> {
            let n = toks.len();
            &&& n >= 2
            &&& toks[n - 1] == Token::Close(Delim::Brace)
            &&& (exists|i: int| 0 <= i < fields.len() && #[trigger] fields[i].skip) ==> (n >= 4 && toks[n
                - 3] == Token::Punct('.', true) && toks[n - 2] == Token::Punct('.', false))
            &&& (forall|i: int| 0 <= i < fields.len() ==> !#[trigger] fields[i].skip) ==> toks[n - 2]
                != Token::Punct('.', false)
        },
        ({
            let toks = spec_array_body(fields, element);
            let n = toks.len();
            &&& n >= 2
            &&& toks[n - 1] == Token::Close(Delim::Bracket)
            &&& (exists|i: int| 0 <= i < fields.len() && #[trigger] fields[i].skip) ==> (n >= 4 && toks[n
                - 3] == Token::Punct('.', true) && toks[n - 2] == Token::Punct('.', false))
        }),
{
    lemma_positions_report_skips(fields, fields.len() as int);
    if spec_object_body(fields, write_only) is Ok && !(fields.len() > 0 && fields[0].name is Index) {
        lemma_members_report_skips(fields, fields.len() as int, write_only);
        lemma_members_end_in_comma(fields, fields.len() as int, write_only);
    }
}

/// The members of an object each end in a comma, so the members of the
/// first `n` fields, when there are any, end in one.
proof fn lemma_members_end_in_comma(fields: Seq<FieldSpec>, n: int, write_only: bool)
    requires
        0 <= n <= fields.len(),
        object_members(fields, n, write_only) is Ok,
    ensures
        ({
            let toks = object_members(fields, n, write_only)->Ok_0.0;
            toks.len() == 0 || toks[toks.len() - 1] == Token::Punct(',', false)
        }),
    decreases n,
{
    if n > 0 {
        lemma_members_end_in_comma(fields, n - 1, write_only);
    }
}

/// A `write_only` declaration says so first: the call opens with
/// `write_only`, and then with the bracketed impl generics when the type has
/// parameters, before anything else. A declaration that is not `write_only`
/// opens with the generics, or with the type's name.
#[verifier::spinoff_prover]
pub proof fn law_write_only_comes_first(input: InputSpec)
    requires
        spec_expand(input) is Ok,
    ensures
        ({
            let toks = spec_expand(input)->Ok_0;
            let r = input.container.root@.len() as int;
            let opened = if input.generics@.len() > 0 {
                Token::Open(Delim::Bracket)
            } else {
                Token::Ident(input.name)
            };
            &&& toks[r + 4] == Token::Open(Delim::Paren)
            &&& input.container.write_only ==> first_in_call(input, toks) == Token::Word("write_only")
                && toks[r + 6] == opened
            &&& !input.container.write_only ==> first_in_call(input, toks) == opened
        }),
{
    let toks = spec_expand(input)->Ok_0;
    let r = input.container.root@.len() as int;
    let parts = declared_parts(input)->Ok_0;
    let call = call_tokens(input, parts.1, parts.2, parts.3);
    assert(toks == input.container.root@ + path_sep() + seq![
        Token::Word(parts.0),
        Token::Punct('!', false),
    ] + grouped(Delim::Paren, call) + seq![Token::Punct(';', false)]);
    let c = input.container;
    let marker: Seq<Token> = if c.write_only {
        seq![Token::Word("write_only")]
    } else {
        Seq::empty()
    };
    let generics: Seq<Token> = if input.generics@.len() > 0 {
        grouped(
            Delim::Bracket,
            param_decls(input.generics@, input.generics@.len() as int, c.root@, c.format, c.write_only),
        )
    } else {
        Seq::empty()
    };
    let named = spec_type_tokens(input.name, input.generics@);
    let rest = named + header(parts.1, parts.2) + parts.3;
    assert(call == marker + generics + rest);
    assert(named[0] == Token::Ident(input.name));
    assert(rest[0] == Token::Ident(input.name));
    assert((generics + rest)[0] == opened_spec(input));
    assert(toks[r + 4] == Token::Open(Delim::Paren));
    assert(toks[r + 5] == call[0]);
    assert(toks[r + 6] == call[1]);
}

/// What a call opens with after any `write_only`: the generics' bracket, or
/// the type's name.
spec fn opened_spec(input: InputSpec) -> Token {
    if input.generics@.len() > 0 {
        Token::Open(Delim::Bracket)
    } else {
        Token::Ident(input.name)
    }
}

} // verus!

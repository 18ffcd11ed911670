//! The output buffer: a genco token stream for Rust, seen through a model of
//! the items appended to it, and its formatting into source text.
use vstd::prelude::*;
use genco::lang::rust;

verus! {

/// A genco token stream for Rust. Verus cannot declare genco's `Tokens`,
/// whose parameter is bound by genco's `Lang` trait, so the stream is held
/// here and seen through `token_items`.
#[verifier::external_body]
pub struct TokenStream {
    tokens: rust::Tokens,
}

/// One item of a token stream, as far as this library appends them.
pub enum TokenItem {
    /// A break that puts what follows on a line of its own.
    Push,
    /// A literal run of source text.
    Text(Seq<char>),
    /// A registered import of `name` from `module`.
    Import(Seq<char>, Seq<char>),
}

/// The items of a token stream, in the order in which they were appended.
pub uninterp spec fn token_items(t: TokenStream) -> Seq<TokenItem>;

/// The Rust source file that genco formats from a stream of these items,
/// indented by four spaces.
pub uninterp spec fn formatted_rust(items: Seq<TokenItem>) -> Seq<char>;

/// Whether a push appended after `items` is kept as a new item (genco drops
/// a push that follows another push).
pub open spec fn push_kept(items: Seq<TokenItem>) -> bool {
    items.len() == 0 || !(items.last() is Push)
}

/// Relies on genco's `Tokens::new`: the stream starts empty.
#[verifier::external_body]
pub(crate) fn tokens_new() -> (r: TokenStream)
    ensures
        token_items(r) == Seq::<TokenItem>::empty(),
{
    TokenStream { tokens: rust::Tokens::new() }
}

/// Relies on genco's `Tokens::push`: after an item that is not a push, one
/// push item is added.
#[verifier::external_body]
pub(crate) fn tokens_push(t: &mut TokenStream)
    requires
        push_kept(token_items(*old(t))),
    ensures
        token_items(*final(t)) == token_items(*old(t)).push(TokenItem::Push),
{
    t.tokens.push()
}

/// Relies on genco's `Tokens::append` of a `String`: one literal item holding
/// the string is added.
#[verifier::external_body]
pub(crate) fn tokens_append(t: &mut TokenStream, s: String)
    ensures
        token_items(*final(t)) == token_items(*old(t)).push(TokenItem::Text(s@)),
{
    t.tokens.append(s)
}

/// Relies on genco's `rust::import` and `Tokens::register`: one registered
/// import item is added, which produces no text where it stands.
#[verifier::external_body]
pub(crate) fn tokens_register_import(t: &mut TokenStream, module: &str, name: &str)
    ensures
        token_items(*final(t)) == token_items(*old(t)).push(
            TokenItem::Import(module@, name@),
        ),
{
    t.tokens.register(rust::import(module.to_string(), name.to_string()))
}

/// Relies on genco's `Tokens::format_file` with a `FmtWriter` over a `String`
/// and four spaces of indentation. genco's formatter fails only on quoted or
/// evaluated items, which no wrapper here appends, and writing to a `String`
/// never fails: the result is always the formatted file.
#[verifier::external_body]
pub(crate) fn tokens_format_file(t: &TokenStream) -> (r: Option<String>)
    ensures
        r is Some,
        r->Some_0@ == formatted_rust(token_items(*t)),
{
    let mut w = genco::fmt::FmtWriter::new(String::new());
    let fmt = genco::fmt::Config::from_lang::<rust::Rust>()
        .with_indentation(genco::fmt::Indentation::Space(4));
    let config = rust::Config::default();
    match t.tokens.format_file(&mut w.as_formatter(&fmt), &config) {
        Ok(()) => Some(w.into_inner()),
        Err(_) => None,
    }
}

} // verus!

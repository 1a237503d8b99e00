//! What the checks read from the syntax nodes of `syn` and the token streams
//! of `proc_macro2`.
//!
//! Nothing in this file is proved. To the verifier a node is opaque: a spec
//! function without a body names each thing that is read from one, and the
//! function that makes the read is believed to return what the name stands
//! for. A name says no more than that the same node gives the same value.

use vstd::prelude::*;

verus! {

/// A function item of `syn`, which the verifier does not look into.
#[verifier::external_type_specification]
#[verifier::external_body]
pub struct ExItemFn(syn::ItemFn);

/// An item of `syn`, which the verifier does not look into.
#[verifier::external_type_specification]
#[verifier::external_body]
pub struct ExItem(syn::Item);

/// A visibility of `syn`, which the verifier does not look into.
#[verifier::external_type_specification]
#[verifier::external_body]
pub struct ExVisibility(syn::Visibility);

/// A token stream of `proc_macro2`, which the verifier does not look into.
#[verifier::external_type_specification]
#[verifier::external_body]
pub struct ExTokenStream(proc_macro2::TokenStream);

/// The identifier of a function item, as `Ident::to_string` prints it.
pub uninterp spec fn fn_name(item: syn::ItemFn) -> Seq<char>;

/// The visibility that a function item holds.
pub uninterp spec fn fn_visibility(item: syn::ItemFn) -> syn::Visibility;

/// The paths of the attributes that a function item holds, in order: of each
/// path the identifiers of its segments, in order, as `Ident::to_string`
/// prints them.
pub uninterp spec fn fn_attribute_paths(item: syn::ItemFn) -> Seq<Seq<Seq<char>>>;

/// The tokens of the body of a function item, braces included.
pub uninterp spec fn fn_body(item: syn::ItemFn) -> proc_macro2::TokenStream;

/// A token stream as `TokenStream::to_string` prints it.
pub uninterp spec fn token_text(tokens: proc_macro2::TokenStream) -> Seq<char>;

/// Whether the `==` of `syn` holds two visibilities to be equal.
pub uninterp spec fn same_visibility(left: syn::Visibility, right: syn::Visibility) -> bool;

/// A visibility as the `Debug` impl of `syn` prints it.
pub uninterp spec fn visibility_text(visibility: syn::Visibility) -> Seq<char>;

/// The function item that an item holds, if it is the variant `Item::Fn`.
pub uninterp spec fn item_function(item: syn::Item) -> Option<syn::ItemFn>;

/// Calls `Ident::to_string` on the field `sig.ident` of the item.
///
/// Believed: the text that comes back is the item's identifier, `fn_name`.
#[verifier::external_body]
pub(crate) fn read_name(item: &syn::ItemFn) -> (name: String)
    ensures
        name@ == fn_name(*item),
{
    item.sig.ident.to_string()
}

/// Borrows the field `vis` of the item.
///
/// Believed: what is borrowed is the item's visibility, `fn_visibility`.
#[verifier::external_body]
pub(crate) fn read_visibility(item: &syn::ItemFn) -> (visibility: &syn::Visibility)
    ensures
        *visibility == fn_visibility(*item),
{
    &item.vis
}

/// Calls `Vec::len` on the field `attrs` of the item.
///
/// Believed: the item has as many attributes as `fn_attribute_paths` has
/// paths.
#[verifier::external_body]
pub(crate) fn attribute_count(item: &syn::ItemFn) -> (count: usize)
    ensures
        count == fn_attribute_paths(*item).len(),
{
    item.attrs.len()
}

/// Calls `Punctuated::len` on the segments of the path of the attribute at
/// `index`. Indexing the attributes panics past their end, which `requires`
/// leaves out.
///
/// Believed: the path has as many segments as `fn_attribute_paths` gives it.
#[verifier::external_body]
pub(crate) fn segment_count(item: &syn::ItemFn, index: usize) -> (count: usize)
    requires
        index < fn_attribute_paths(*item).len(),
    ensures
        count == fn_attribute_paths(*item)[index as int].len(),
{
    item.attrs[index].path.segments.len()
}

/// Indexes the segments of the path of the attribute at `index` with
/// `Punctuated::index`, and calls `Ident::to_string` on the field `ident` of
/// the segment at `position`. Either index panics past the end, which
/// `requires` leaves out.
///
/// Believed: the text that comes back is the one that `fn_attribute_paths`
/// holds at that place.
#[verifier::external_body]
pub(crate) fn read_segment(item: &syn::ItemFn, index: usize, position: usize) -> (segment: String)
    requires
        index < fn_attribute_paths(*item).len(),
        position < fn_attribute_paths(*item)[index as int].len(),
    ensures
        segment@ == fn_attribute_paths(*item)[index as int][position as int],
{
    item.attrs[index].path.segments[position].ident.to_string()
}

/// Calls `ToTokens::to_token_stream` on the field `block` of the item.
///
/// Believed: the tokens that come back are those of the item's body,
/// `fn_body`.
#[verifier::external_body]
pub(crate) fn read_body(item: &syn::ItemFn) -> (body: proc_macro2::TokenStream)
    ensures
        body == fn_body(*item),
{
    quote::ToTokens::to_token_stream(&item.block)
}

/// Calls `TokenStream::to_string`.
///
/// Believed: the text that comes back is `token_text` of the tokens.
#[verifier::external_body]
pub(crate) fn read_tokens(tokens: &proc_macro2::TokenStream) -> (text: String)
    ensures
        text@ == token_text(*tokens),
{
    tokens.to_string()
}

/// Compares two visibilities with the `==` that `syn` gives them.
///
/// Believed: the answer is `same_visibility` of the two.
#[verifier::external_body]
pub(crate) fn visibility_eq(left: &syn::Visibility, right: &syn::Visibility) -> (same: bool)
    ensures
        same == same_visibility(*left, *right),
{
    left == right
}

/// Formats a visibility with the `Debug` impl that `syn` gives it.
///
/// Believed: the text that comes back is `visibility_text` of the
/// visibility.
#[verifier::external_body]
pub(crate) fn render_visibility(visibility: &syn::Visibility) -> (text: String)
    ensures
        text@ == visibility_text(*visibility),
{
    format!("{:?}", visibility)
}

/// Tells the variant `Item::Fn` from the others, and borrows what it holds.
///
/// Believed: what is borrowed is `item_function` of the item, and nothing is
/// borrowed exactly where that is `None`.
#[verifier::external_body]
pub(crate) fn as_function(item: &syn::Item) -> (function: Option<&syn::ItemFn>)
    ensures
        function.is_some() == item_function(*item).is_some(),
        function matches Some(found) ==> *found == item_function(*item).unwrap(),
{
    match item {
        syn::Item::Fn(function) => Some(function),
        _ => None,
    }
}

} // verus!

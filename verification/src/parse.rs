//! The one place where the host syntax is read: the entry list of a
//! metadata block, parsed by `syn`.

use crate::model::MetadataEntry;
use quote::ToTokens;
use syn::parse::Parser;
use syn::punctuated::Punctuated;
use syn::token::Comma;
use syn::Meta;
use vstd::prelude::*;

verus! {

/// Calls `Punctuated::<Meta, Comma>::parse_terminated` of `syn` on the text,
/// through `Parser::parse_str`, and hands the entries out as plain values.
///
/// Trusted, and nothing is promised of the result. `proc-macro2` tokenizes
/// and prints either by itself or through the compiler, by a state of the
/// process that is no part of the text, and the two printers space their
/// tokens differently: so neither the outcome nor the texts in it are fixed
/// by `content`. Callers are verified for every value that may come back.
///
/// An error of the tokenizer or of the parser comes back as `None`. Of the
/// entries, a `Meta::NameValue` comes back as `KeyValue`, with the text of its
/// path and the text of its value; a `Meta::Path` and a `Meta::List` come back
/// as `Flag`, with their whole text. The texts are printed through
/// `ToTokens::to_token_stream` of `quote`.
///
/// The parser of `syn` descends once for each level at which an expression
/// is nested, so the call returns only where the stack of the machine holds
/// the nesting of the values in `content`.
#[verifier::external_body]
pub(crate) fn parse_entries(content: &str) -> (parsed: Option<Vec<MetadataEntry>>) {
    match Punctuated::<Meta, Comma>::parse_terminated.parse_str(content) {
        Ok(metas) => Some(metas.into_iter().map(|meta| match meta {
            Meta::Path(path) => MetadataEntry::Flag(path.to_token_stream().to_string()),
            Meta::List(list) => MetadataEntry::Flag(list.to_token_stream().to_string()),
            Meta::NameValue(pair) => MetadataEntry::KeyValue(
                pair.path.to_token_stream().to_string(),
                pair.value.to_token_stream().to_string(),
            ),
        }).collect()),
        Err(_) => None,
    }
}

} // verus!

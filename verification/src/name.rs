//! Qualified names: `local` or `prefix:local`.

use crate::error::{invalid_text, ParseError};
use quick_xml::name::QName;
use vstd::prelude::*;
use vstd::utf8::*;

verus! {

/// The byte that separates a prefix from a local name.
pub const COLON: u8 = 58;

/// The part of a raw name before its first colon, if it has a colon.
pub open spec fn name_prefix(name: Seq<u8>) -> Option<Seq<u8>> {
    match name.index_of_first(COLON) {
        Some(i) => Some(name.take(i)),
        None => None,
    }
}

/// The part of a raw name after its first colon, or all of it where it has no
/// colon.
pub open spec fn name_local(name: Seq<u8>) -> Seq<u8> {
    match name.index_of_first(COLON) {
        Some(i) => name.skip(i + 1),
        None => name,
    }
}

/// The text of `bytes`, if they are valid UTF-8.
pub open spec fn text_of(bytes: Seq<u8>) -> Option<Seq<char>> {
    if valid_utf8(bytes) {
        Some(decode_utf8(bytes))
    } else {
        None
    }
}

/// The key under which a raw name is filed: its local name, preceded by its
/// prefix and a colon if it has a prefix. `None` if a part is not valid UTF-8.
pub open spec fn qualified_name(name: Seq<u8>) -> Option<Seq<char>> {
    match name_prefix(name) {
        None => text_of(name_local(name)),
        Some(prefix) => match (text_of(prefix), text_of(name_local(name))) {
            (Some(p), Some(l)) => Some(p + seq![':'] + l),
            _ => None,
        },
    }
}

/// `QName::prefix` of quick-xml: the bytes before the first colon of the name,
/// `None` for a name without a colon.
#[verifier::external_body]
fn prefix<'a>(name: &'a [u8]) -> (found: Option<&'a [u8]>)
    ensures
        match found {
            Some(p) => name_prefix(name@) == Some(p@),
            None => name_prefix(name@) is None,
        },
{
    QName(name).prefix().map(|p| p.into_inner())
}

/// `QName::local_name` of quick-xml: the bytes after the first colon of the
/// name, the whole name where it has no colon.
#[verifier::external_body]
fn local_name<'a>(name: &'a [u8]) -> (local: &'a [u8])
    ensures
        local@ == name_local(name@),
{
    QName(name).local_name().into_inner()
}

/// `std::str::from_utf8`: the bytes as a string slice if they are valid UTF-8,
/// nothing otherwise.
#[verifier::external_body]
pub(crate) fn utf8<'a>(bytes: &'a [u8]) -> (text: Option<&'a str>)
    ensures
        match text {
            Some(s) => text_of(bytes@) == Some(s@),
            None => text_of(bytes@) is None,
        },
{
    std::str::from_utf8(bytes).ok()
}

/// The qualified name of an element or attribute, from its raw name.
///
/// Fails with a text encoding error exactly when the prefix or the local name
/// is not valid UTF-8.
pub fn qn(name: &[u8]) -> (key: Result<String, ParseError>)
    ensures
        match key {
            Ok(k) => qualified_name(name@) == Some(k@),
            Err(e) => qualified_name(name@) is None && e@ == invalid_text(),
        },
{
    let local = match utf8(local_name(name)) {
        Some(l) => l,
        None => { return Err(ParseError::invalid_text()); },
    };
    match prefix(name) {
        None => Ok(local.to_owned()),
        Some(p) => match utf8(p) {
            None => Err(ParseError::invalid_text()),
            Some(p) => {
                proof {
                    reveal_strlit(":");
                    assert(":"@ =~= seq![':']);
                }
                Ok(p.to_owned().concat(":").concat(local))
            },
        },
    }
}

/// Bytes that start with a colon are valid UTF-8 exactly when the bytes after
/// the colon are, and their text is a colon and the text of those.
proof fn lemma_colon_first(bytes: Seq<u8>)
    requires
        bytes.len() > 0,
        bytes[0] == COLON,
    ensures
        valid_utf8(bytes) == valid_utf8(bytes.skip(1)),
        valid_utf8(bytes) ==> decode_utf8(bytes) == seq![':'] + decode_utf8(bytes.skip(1)),
{
    assert(58u8 & 0x7f == 58u8) by (bit_vector);
    assert(pop_first_scalar(bytes) =~= bytes.skip(1));
    assert(valid_first_scalar(bytes));
    assert(decode_first_scalar(bytes) == 58u32);
    assert(58u32 as char == ':');
}

/// The qualified name of a raw name is the name itself as text: the prefix
/// and the colon stay as they are written.
pub proof fn law_qualified_name_is_the_name(name: Seq<u8>)
    ensures
        qualified_name(name) == text_of(name),
{
    name.index_of_first_ensures(COLON);
    match name.index_of_first(COLON) {
        None => {},
        Some(i) => {
            let prefix = name.take(i);
            let rest = name.skip(i);
            let local = name.skip(i + 1);
            assert(rest.skip(1) =~= local);
            assert(prefix + rest =~= name);
            lemma_colon_first(rest);
            if valid_utf8(prefix) && valid_utf8(local) {
                valid_utf8_concat(prefix, rest);
            }
            if valid_utf8(name) {
                is_char_boundary_iff_not_is_continuation_byte(name, i);
                valid_utf8_split(name, i);
                decode_utf8_split(name, i);
                assert(name.subrange(0, i) =~= prefix);
                assert(name.subrange(i, name.len() as int) =~= rest);
                assert(decode_utf8(prefix) + (seq![':'] + decode_utf8(local)) =~= decode_utf8(
                    prefix,
                ) + seq![':'] + decode_utf8(local));
            }
        },
    }
}

} // verus!

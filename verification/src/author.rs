//! Author strings and how they are shown: unchanged, with the e-mail address
//! replaced by its pseudonym, or replaced by a pseudonym as a whole.

use crate::digest::{digest_text, hash_text};
use vstd::prelude::*;
use vstd::string::*;

verus! {

/// The display name and the e-mail address found in an author string.
pub struct AuthorParts {
    pub name: Option<String>,
    pub email: Option<String>,
}

/// The parts of an author string as texts.
pub struct AuthorPartsView {
    pub name: Option<Seq<char>>,
    pub email: Option<Seq<char>>,
}

/// A text that may be absent, as a text.
pub open spec fn text_of(part: Option<String>) -> Option<Seq<char>> {
    match part {
        Some(text) => Some(text@),
        None => None,
    }
}

impl View for AuthorParts {
    type V = AuthorPartsView;

    open spec fn view(&self) -> AuthorPartsView {
        AuthorPartsView { name: text_of(self.name), email: text_of(self.email) }
    }
}

/// The name and the address that `cargo_author` finds in an author string.
pub uninterp spec fn parsed_author(raw: Seq<char>) -> AuthorPartsView;

/// Calls `cargo_author::Author::new` and keeps the name and the address it
/// found; the URL is dropped.
///
/// Trusted, not proved: both depend on the text alone, which `parsed_author`
/// names. Nothing else is claimed of them.
#[verifier::external_body]
fn parse_author(raw: &str) -> (parts: AuthorParts)
    ensures
        parts@ == parsed_author(raw@),
{
    let author = cargo_author::Author::new(raw);
    AuthorParts { name: author.name, email: author.email }
}

/// A name and an address in angle brackets, with one space between them where
/// both are present.
pub open spec fn composed(name: Option<Seq<char>>, address: Option<Seq<char>>) -> Seq<char> {
    let shown_name = match name {
        Some(n) => n,
        None => Seq::<char>::empty(),
    };
    let gap = if name is Some && address is Some {
        seq![' ']
    } else {
        Seq::<char>::empty()
    };
    let shown_address = match address {
        Some(a) => seq!['<'] + a + seq!['>'],
        None => Seq::<char>::empty(),
    };
    shown_name + gap + shown_address
}

/// An author string with its address, if it has one, replaced by the
/// pseudonym of the address. Without an address the string stays as it is.
pub open spec fn masked(raw: Seq<char>, parts: AuthorPartsView) -> Seq<char> {
    match parts.email {
        Some(address) => composed(parts.name, Some(digest_text(address))),
        None => raw,
    }
}

/// How an author string is shown. Hiding authors takes precedence over hiding
/// addresses.
pub open spec fn shown_author(raw: Seq<char>, hide_authors: bool, hide_emails: bool) -> Seq<char> {
    if hide_authors {
        digest_text(raw)
    } else if hide_emails {
        masked(raw, parsed_author(raw))
    } else {
        raw
    }
}

/// How a package name is shown.
pub open spec fn shown_name(name: Seq<char>, hide_crates: bool) -> Seq<char> {
    if hide_crates {
        digest_text(name)
    } else {
        name
    }
}

/// Writes a name and an address as `name <address>`.
pub fn compose_author(name: &Option<String>, address: &Option<String>) -> (text: String)
    ensures
        text@ == composed(text_of(*name), text_of(*address)),
{
    let mut text = String::new();
    if let Some(n) = name {
        text.append(n.as_str());
    }
    if let Some(a) = address {
        proof {
            reveal_strlit(" ");
            reveal_strlit("<");
            reveal_strlit(">");
        }
        if name.is_some() {
            text.append(" ");
        }
        text.append("<");
        text.append(a.as_str());
        text.append(">");
    }
    proof {
        assert(text@ =~= composed(text_of(*name), text_of(*address)));
    }
    text
}

/// Replaces the address among `parts` by its pseudonym and writes the author
/// anew; returns `raw` unchanged where `parts` holds no address.
pub fn mask_email(raw: &str, parts: &AuthorParts) -> (text: String)
    ensures
        text@ == masked(raw@, parts@),
{
    match &parts.email {
        Some(address) => {
            let pseudonym = Some(hash_text(address.as_str()));
            compose_author(&parts.name, &pseudonym)
        },
        None => String::from_str(raw),
    }
}

/// Shows an author string with its e-mail address hidden.
pub fn hide_email(raw: &str) -> (text: String)
    ensures
        text@ == masked(raw@, parsed_author(raw@)),
{
    let parts = parse_author(raw);
    mask_email(raw, &parts)
}

/// Shows an author string as the two options ask.
pub fn normalize_author(raw: &str, hide_authors: bool, hide_emails: bool) -> (text: String)
    ensures
        text@ == shown_author(raw@, hide_authors, hide_emails),
{
    if hide_authors {
        hash_text(raw)
    } else if hide_emails {
        hide_email(raw)
    } else {
        String::from_str(raw)
    }
}

/// Shows a package name as the option asks.
pub fn display_name(name: &str, hide_crates: bool) -> (text: String)
    ensures
        text@ == shown_name(name@, hide_crates),
{
    if hide_crates {
        hash_text(name)
    } else {
        String::from_str(name)
    }
}

} // verus!

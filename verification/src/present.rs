//! What is handed to the presenter: the final mapping, and its rendering as
//! aligned lines of text.

use crate::mapping::{listing_of, AggregateMapping, Listing};
use vstd::prelude::*;
use vstd::string::*;
use vstd::utf8::*;

verus! {

/// The document that is serialised in machine-readable mode: the mapping
/// under the single field `entries`.
pub struct AuthorsResult {
    pub entries: AggregateMapping,
}

impl AuthorsResult {
    /// Wraps a mapping.
    pub fn new(v: AggregateMapping) -> (r: Self)
        ensures
            r.entries == v,
    {
        AuthorsResult { entries: v }
    }
}

/// The width of a key: the length of its UTF-8 encoding.
pub open spec fn key_width(key: Seq<char>) -> nat {
    encode_utf8(key).len()
}

/// The greatest width among the first `n` keys of a listing; zero where
/// there is none.
pub open spec fn widest_among(l: Listing, n: int) -> nat
    decreases n,
{
    if n <= 0 {
        0
    } else if key_width(l[n - 1].0) > widest_among(l, n - 1) {
        key_width(l[n - 1].0)
    } else {
        widest_among(l, n - 1)
    }
}

/// The greatest width among the keys of a listing; zero for the empty
/// listing.
pub open spec fn widest_key(l: Listing) -> nat {
    widest_among(l, l.len() as int)
}

/// `n` spaces.
pub open spec fn spaces(n: nat) -> Seq<char> {
    Seq::new(n, |i: int| ' ')
}

/// A key made `width` characters long by spaces behind it; a key that is as
/// long or longer stays as it is.
pub open spec fn padded(key: Seq<char>, width: nat) -> Seq<char> {
    if key.len() < width {
        key + spaces((width - key.len()) as nat)
    } else {
        key
    }
}

/// The first `n` values, with a comma and a space between neighbours.
pub open spec fn joined(values: Seq<Seq<char>>, n: int) -> Seq<char>
    decreases n,
{
    if n <= 0 {
        Seq::<char>::empty()
    } else if n == 1 {
        values[0]
    } else {
        joined(values, n - 1) + seq![',', ' '] + values[n - 1]
    }
}

/// One line of the report: the padded key, a colon and a space, the values.
pub open spec fn line_of(key: Seq<char>, values: Seq<Seq<char>>, width: nat) -> Seq<char> {
    padded(key, width) + seq![':', ' '] + joined(values, values.len() as int)
}

/// The lines of the report: one for each key, in the order of the keys, all
/// keys padded to the width of the widest.
pub open spec fn report_lines(l: Listing) -> Seq<Seq<char>> {
    Seq::new(l.len(), |i: int| line_of(l[i].0, l[i].1, widest_key(l)))
}

/// The line that heads the report, by the side that the mapping is grouped
/// by.
pub open spec fn banner_of(by_crate: bool) -> Seq<char> {
    if by_crate {
        "Crates and their respective authors for this crate:"@
    } else {
        "Authors and their respective crates for this crate:"@
    }
}

/// The whole report: the banner, an empty line, and the lines of the keys.
pub open spec fn report_of(l: Listing, by_crate: bool) -> Seq<Seq<char>> {
    seq![banner_of(by_crate), Seq::<char>::empty()] + report_lines(l)
}

/// No key among the first `n` is wider than the widest, and where there is a
/// key the widest width is that of one of them.
pub proof fn lemma_widest_among(l: Listing, n: int)
    requires
        0 <= n <= l.len(),
    ensures
        forall|i: int| 0 <= i < n ==> key_width(#[trigger] l[i].0) <= widest_among(l, n),
        n == 0 ==> widest_among(l, n) == 0,
        n > 0 ==> exists|i: int| 0 <= i < n && key_width(#[trigger] l[i].0) == widest_among(l, n),
    decreases n,
{
    if n > 0 {
        lemma_widest_among(l, n - 1);
        if n > 1 && key_width(l[n - 1].0) <= widest_among(l, n - 1) {
            let i = choose|i: int| 0 <= i < n - 1 && key_width(#[trigger] l[i].0) == widest_among(
                l,
                n - 1,
            );
            assert(0 <= i < n && key_width(l[i].0) == widest_among(l, n));
        } else {
            assert(key_width(l[n - 1].0) == widest_among(l, n));
        }
    }
}

/// The width of the widest key, zero for a mapping without keys.
pub fn max_key_width(mapping: &AggregateMapping) -> (width: usize)
    ensures
        width == widest_key(mapping.listing()),
        forall|i: int|
            0 <= i < mapping.listing().len() ==> key_width(#[trigger] mapping.listing()[i].0)
                <= width,
        mapping.listing().len() == 0 ==> width == 0,
        mapping.listing().len() > 0 ==> exists|i: int|
            0 <= i < mapping.listing().len() && key_width(#[trigger] mapping.listing()[i].0)
                == width,
{
    let entries = mapping.entries();
    let ghost l = mapping.listing();
    let mut width: usize = 0;
    let mut i: usize = 0;
    while i < entries.len()
        invariant
            l == listing_of(entries@),
            i <= entries@.len(),
            width == widest_among(l, i as int),
        decreases entries@.len() - i,
    {
        let n = entries[i].0.as_str().as_bytes().len();
        if n > width {
            width = n;
        }
        i += 1;
    }
    proof {
        lemma_widest_among(l, l.len() as int);
    }
    width
}

/// Pads `key` with spaces to `width` characters.
pub fn pad_key(key: &str, width: usize) -> (text: String)
    ensures
        text@ == padded(key@, width as nat),
{
    let mut text = String::from_str(key);
    let mut n: usize = key.unicode_len();
    while n < width
        invariant
            n >= key@.len(),
            n == key@.len() || n <= width,
            text@.len() == n,
            text@ == key@ + spaces((n - key@.len()) as nat),
        decreases width - n,
    {
        proof {
            reveal_strlit(" ");
        }
        text.append(" ");
        proof {
            assert(text@ =~= key@ + spaces((n + 1 - key@.len()) as nat));
        }
        n += 1;
    }
    proof {
        assert(key@ + spaces(0) =~= key@);
    }
    text
}

/// Joins texts with a comma and a space.
pub fn join_values(values: &Vec<String>) -> (text: String)
    ensures
        text@ == joined(values.deep_view(), values@.len() as int),
{
    let mut text = String::new();
    let mut i: usize = 0;
    while i < values.len()
        invariant
            i <= values@.len(),
            text@ == joined(values.deep_view(), i as int),
        decreases values@.len() - i,
    {
        if i > 0 {
            proof {
                reveal_strlit(", ");
                assert(", "@ =~= seq![',', ' ']);
            }
            text.append(", ");
        }
        assert(values.deep_view()[i as int] == values@[i as int]@);
        text.append(values[i].as_str());
        proof {
            if i == 0 {
                assert(text@ =~= values.deep_view()[0]);
            }
        }
        i += 1;
    }
    text
}

/// Writes one line of the report.
pub fn render_line(key: &str, values: &Vec<String>, width: usize) -> (line: String)
    ensures
        line@ == line_of(key@, values.deep_view(), width as nat),
{
    let mut line = pad_key(key, width);
    proof {
        reveal_strlit(": ");
        assert(": "@ =~= seq![':', ' ']);
    }
    line.append(": ");
    let values_text = join_values(values);
    line.append(values_text.as_str());
    line
}

/// The line that heads the report.
pub fn banner(by_crate: bool) -> (line: String)
    ensures
        line@ == banner_of(by_crate),
{
    if by_crate {
        String::from_str("Crates and their respective authors for this crate:")
    } else {
        String::from_str("Authors and their respective crates for this crate:")
    }
}

/// The lines of the keys: one line for each key, in the order of the keys.
pub fn render_lines(mapping: &AggregateMapping) -> (lines: Vec<String>)
    ensures
        lines.deep_view() == report_lines(mapping.listing()),
{
    let width = max_key_width(mapping);
    let entries = mapping.entries();
    let ghost l = mapping.listing();
    let mut lines: Vec<String> = Vec::new();
    let mut i: usize = 0;
    while i < entries.len()
        invariant
            l == listing_of(entries@),
            width == widest_key(l),
            i <= entries@.len(),
            lines@.len() == i,
            forall|k: int| 0 <= k < i ==> (#[trigger] lines@[k])@ == report_lines(l)[k],
        decreases entries@.len() - i,
    {
        let line = render_line(entries[i].0.as_str(), entries[i].1.items(), width);
        lines.push(line);
        i += 1;
    }
    proof {
        assert(lines.deep_view() =~= report_lines(l));
    }
    lines
}

/// The whole report in text mode, line by line.
pub fn render_text(mapping: &AggregateMapping, by_crate: bool) -> (lines: Vec<String>)
    ensures
        lines.deep_view() == report_of(mapping.listing(), by_crate),
{
    let mut lines: Vec<String> = Vec::new();
    lines.push(banner(by_crate));
    lines.push(String::new());
    let mut rest = render_lines(mapping);
    let ghost body = rest.deep_view();
    let ghost head = lines.deep_view();
    lines.append(&mut rest);
    proof {
        assert(head =~= seq![banner_of(by_crate), Seq::<char>::empty()]);
        assert(lines.deep_view() =~= head + body);
    }
    lines
}

} // verus!

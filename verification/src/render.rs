//! Rendering a selected queue: each list element is decoded into a
//! playlist entry and shown as a numbered multi-line block, in the
//! store's native list order.  Decoding stops at the first element that
//! is not a well-formed entry; what was rendered before it stands.

use crate::entry::EntryView;
use crate::entry::PlaylistEntry;
use crate::entry::entry_from_json;
use crate::entry::parse_entry_spec;
use crate::json::quoted;
use crate::json::append_quoted;
use crate::text::dec_digits;
use crate::text::int_chars;
use crate::text::i64_dec_string;
use crate::text::u64_dec_string;
use vstd::prelude::*;
use vstd::string::StringExecFns;

verus! {

/// The multi-line block that shows all seven fields of one entry.
pub open spec fn entry_block(m: EntryView) -> Seq<char> {
    ("PlaylistEntry {\n  ownerId: ")@ + quoted(m.owner_id) + ("\n  guildId: ")@ + quoted(
        m.guild_id,
    ) + ("\n  url: ")@ + quoted(m.url) + ("\n  title: ")@ + quoted(m.title) + ("\n  id: ")@
        + quoted(m.id) + ("\n  duration: ")@ + int_chars(m.duration) + ("\n  encoding: ")@
        + quoted(m.encoding) + ("\n}")@
}

/// Renders one entry as `entry_block` describes.
pub fn render_entry(e: &PlaylistEntry) -> (r: String)
    ensures
        r@ == entry_block(e@),
{
    let mut out = String::from_str("PlaylistEntry {\n  ownerId: ");
    append_quoted(&mut out, &e.owner_id);
    out.append("\n  guildId: ");
    append_quoted(&mut out, &e.guild_id);
    out.append("\n  url: ");
    append_quoted(&mut out, &e.url);
    out.append("\n  title: ");
    append_quoted(&mut out, &e.title);
    out.append("\n  id: ");
    append_quoted(&mut out, &e.id);
    out.append("\n  duration: ");
    let d = i64_dec_string(e.duration as i64);
    out.append(d.as_str());
    out.append("\n  encoding: ");
    append_quoted(&mut out, &e.encoding);
    out.append("\n}");
    proof {
        assert(out@ =~= entry_block(e@));
    }
    out
}

/// One printed line group for the element at 0-based position `i`: the
/// index, a separating dash, and the entry's block.
pub open spec fn rendered_item(i: nat, m: EntryView) -> Seq<char> {
    dec_digits(i) + (" - ")@ + entry_block(m)
}

/// Renders the element at 0-based position `i`, as `rendered_item`
/// describes.
pub fn render_item(i: usize, e: &PlaylistEntry) -> (r: String)
    ensures
        r@ == rendered_item(i as nat, e@),
{
    let mut out = u64_dec_string(i as u64);
    out.append(" - ");
    let block = render_entry(e);
    out.append(block.as_str());
    proof {
        assert(out@ =~= rendered_item(i as nat, e@));
    }
    out
}

/// Decodes and renders a queue's list elements in store order.  The
/// result holds one rendered block per decoded element; decoding stops
/// at the first element that is not a well-formed entry, whose index is
/// reported, and everything rendered before it is kept.
pub fn render_queue(elems: &Vec<String>) -> (r: (Vec<String>, Option<usize>))
    ensures
        r.1 is None ==> r.0@.len() == elems@.len(),
        r.1 matches Some(b) ==> b < elems@.len() && parse_entry_spec(elems@[b as int]@) is None
            && r.0@.len() == b,
        forall|i: int|
            0 <= i < r.0@.len() ==> parse_entry_spec(#[trigger] elems@[i]@) is Some
                && r.0@[i]@ == rendered_item(i as nat, parse_entry_spec(elems@[i]@)->Some_0),
{
    let mut lines: Vec<String> = Vec::new();
    let mut i: usize = 0;
    while i < elems.len()
        invariant
            i <= elems@.len(),
            lines@.len() == i,
            forall|j: int|
                0 <= j < i ==> parse_entry_spec(#[trigger] elems@[j]@) is Some
                    && lines@[j]@ == rendered_item(j as nat, parse_entry_spec(elems@[j]@)->Some_0),
        decreases elems@.len() - i,
    {
        match entry_from_json(elems[i].as_str()) {
            Some(e) => {
                let line = render_item(i, &e);
                lines.push(line);
            },
            None => {
                return (lines, Some(i));
            },
        }
        i += 1;
    }
    (lines, None)
}

/// The bounds handed to the store's list-range query for a list of the
/// reported length: the full range from zero to the length itself, the
/// inclusive convention the store applies to its range command.
pub fn lrange_bounds(len: i64) -> (r: (i64, i64))
    ensures
        r.0 == 0 && r.1 == len,
{
    (0, len)
}

} // verus!

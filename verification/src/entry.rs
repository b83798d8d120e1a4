//! The playlist entry: one element of a queue's list, decoded from the
//! JSON object the queue writer stores.  An entry has exactly seven
//! fields; a list element that misses one, carries an extra one, types
//! one wrongly, or is not a single JSON object at all, does not decode.

use crate::json::GJsonVal;
use crate::json::JsonVal;
use crate::json::count_key;
use crate::json::key_count;
use crate::json::lookup_key;
use crate::json::pairs_view;
use crate::json::parse_members;
use crate::json::skip_ws;
use crate::json::slookup;
use crate::json::sparse_members;
use crate::json::sskip_ws;
use crate::text::chars_of;
use crate::text::string_from_chars;
use vstd::prelude::*;
use vstd::string::StringExecFns;

verus! {

/// One playlist entry, as stored in a queue's list.
pub struct PlaylistEntry {
    /// Identifier of the user that queued the item.
    pub owner_id: String,
    /// Identifier of the guild whose queue holds the item.
    pub guild_id: String,
    /// Source address of the item.
    pub url: String,
    /// Display title of the item.
    pub title: String,
    /// Identifier of the item itself.
    pub id: String,
    /// Playing time of the item, in seconds.
    pub duration: i32,
    /// Codec or format label of the item.
    pub encoding: String,
}

/// The mathematical shape of a playlist entry.
pub ghost struct EntryView {
    pub owner_id: Seq<char>,
    pub guild_id: Seq<char>,
    pub url: Seq<char>,
    pub title: Seq<char>,
    pub id: Seq<char>,
    pub duration: int,
    pub encoding: Seq<char>,
}

impl View for PlaylistEntry {
    type V = EntryView;

    open spec fn view(&self) -> EntryView {
        EntryView {
            owner_id: self.owner_id@,
            guild_id: self.guild_id@,
            url: self.url@,
            title: self.title@,
            id: self.id@,
            duration: self.duration as int,
            encoding: self.encoding@,
        }
    }
}

/// The field name `ownerId`.
pub open spec fn key_owner_id() -> Seq<char> {
    seq!['o', 'w', 'n', 'e', 'r', 'I', 'd']
}

/// The field name `guildId`.
pub open spec fn key_guild_id() -> Seq<char> {
    seq!['g', 'u', 'i', 'l', 'd', 'I', 'd']
}

/// The field name `url`.
pub open spec fn key_url() -> Seq<char> {
    seq!['u', 'r', 'l']
}

/// The field name `title`.
pub open spec fn key_title() -> Seq<char> {
    seq!['t', 'i', 't', 'l', 'e']
}

/// The field name `id`.
pub open spec fn key_id() -> Seq<char> {
    seq!['i', 'd']
}

/// The field name `duration`.
pub open spec fn key_duration() -> Seq<char> {
    seq!['d', 'u', 'r', 'a', 't', 'i', 'o', 'n']
}

/// The field name `encoding`.
pub open spec fn key_encoding() -> Seq<char> {
    seq!['e', 'n', 'c', 'o', 'd', 'i', 'n', 'g']
}

/// True of the seven field names an entry object must carry.
pub open spec fn is_field_name(n: Seq<char>) -> bool {
    ||| n == key_owner_id()
    ||| n == key_guild_id()
    ||| n == key_url()
    ||| n == key_title()
    ||| n == key_id()
    ||| n == key_duration()
    ||| n == key_encoding()
}

/// Builds an entry from the members of a decoded object: each of the
/// seven fields present exactly once, no other member, the six text
/// fields holding strings and `duration` an integer that fits in a
/// signed 32-bit value.
pub open spec fn build_entry(ps: Seq<(Seq<char>, GJsonVal)>) -> Option<EntryView> {
    if ps.len() == 7 && (forall|ix: int| 0 <= ix < ps.len() ==> is_field_name(#[trigger] ps[ix].0))
        && key_count(ps, key_owner_id()) == 1 && key_count(ps, key_guild_id()) == 1 && key_count(
        ps,
        key_url(),
    ) == 1 && key_count(ps, key_title()) == 1 && key_count(ps, key_id()) == 1 && key_count(
        ps,
        key_duration(),
    ) == 1 && key_count(ps, key_encoding()) == 1 && (slookup(ps, key_owner_id()) matches Some(
        GJsonVal::Str(_),
    )) && (slookup(ps, key_guild_id()) matches Some(GJsonVal::Str(_))) && (slookup(
        ps,
        key_url(),
    ) matches Some(GJsonVal::Str(_))) && (slookup(ps, key_title()) matches Some(
        GJsonVal::Str(_),
    )) && (slookup(ps, key_id()) matches Some(GJsonVal::Str(_))) && (slookup(
        ps,
        key_encoding(),
    ) matches Some(GJsonVal::Str(_))) && (slookup(ps, key_duration()) matches Some(
        GJsonVal::Int(d),
    ) && i32::MIN <= d <= i32::MAX) {
        Some(
            EntryView {
                owner_id: slookup(ps, key_owner_id())->Some_0->Str_0,
                guild_id: slookup(ps, key_guild_id())->Some_0->Str_0,
                url: slookup(ps, key_url())->Some_0->Str_0,
                title: slookup(ps, key_title())->Some_0->Str_0,
                id: slookup(ps, key_id())->Some_0->Str_0,
                duration: slookup(ps, key_duration())->Some_0->Int_0,
                encoding: slookup(ps, key_encoding())->Some_0->Str_0,
            },
        )
    } else {
        None
    }
}

/// Which texts decode to an entry: optional surrounding whitespace, one
/// JSON object, nothing after it, and members that `build_entry` accepts.
pub open spec fn parse_entry_spec(s: Seq<char>) -> Option<EntryView> {
    let i = sskip_ws(s, 0);
    if 0 <= i < s.len() && s[i] == '{' {
        let j = sskip_ws(s, i + 1);
        if 0 <= j < s.len() && s[j] == '}' {
            let k = sskip_ws(s, j + 1);
            if k == s.len() {
                build_entry(Seq::empty())
            } else {
                None
            }
        } else {
            match sparse_members(s, j) {
                None => None,
                Some((ps, w)) => {
                    let k = sskip_ws(s, w);
                    if k == s.len() {
                        build_entry(ps)
                    } else {
                        None
                    }
                },
            }
        }
    } else {
        None
    }
}

/// The characters of one field name, by a small tag used only here.
fn field_name_chars(which: u8) -> (v: Vec<char>)
    requires
        which < 7,
    ensures
        which == 0 ==> v@ == key_owner_id(),
        which == 1 ==> v@ == key_guild_id(),
        which == 2 ==> v@ == key_url(),
        which == 3 ==> v@ == key_title(),
        which == 4 ==> v@ == key_id(),
        which == 5 ==> v@ == key_duration(),
        which == 6 ==> v@ == key_encoding(),
{
    if which == 0 {
        let v = chars_of("ownerId");
        proof {
            reveal_strlit("ownerId");
            assert(v@ =~= key_owner_id());
        }
        v
    } else if which == 1 {
        let v = chars_of("guildId");
        proof {
            reveal_strlit("guildId");
            assert(v@ =~= key_guild_id());
        }
        v
    } else if which == 2 {
        let v = chars_of("url");
        proof {
            reveal_strlit("url");
            assert(v@ =~= key_url());
        }
        v
    } else if which == 3 {
        let v = chars_of("title");
        proof {
            reveal_strlit("title");
            assert(v@ =~= key_title());
        }
        v
    } else if which == 4 {
        let v = chars_of("id");
        proof {
            reveal_strlit("id");
            assert(v@ =~= key_id());
        }
        v
    } else if which == 5 {
        let v = chars_of("duration");
        proof {
            reveal_strlit("duration");
            assert(v@ =~= key_duration());
        }
        v
    } else {
        let v = chars_of("encoding");
        proof {
            reveal_strlit("encoding");
            assert(v@ =~= key_encoding());
        }
        v
    }
}

/// Reads the string content of the pair at `ix`, or reports the wrong
/// type.
fn string_field(ps: &Vec<(Vec<char>, JsonVal)>, ix: usize) -> (r: Option<String>)
    requires
        ix < ps@.len(),
    ensures
        match ps@[ix as int].1@ {
            GJsonVal::Str(t) => r matches Some(s) && s@ == t,
            GJsonVal::Int(_) => r is None,
        },
{
    match &ps[ix].1 {
        JsonVal::Str(content) => Some(string_from_chars(content)),
        JsonVal::Int(_) => None,
    }
}

/// Builds an entry from parsed members, agreeing with `build_entry`.
pub fn build_entry_exec(ps: &Vec<(Vec<char>, JsonVal)>) -> (r: Option<PlaylistEntry>)
    ensures
        match build_entry(pairs_view(ps@)) {
            Some(m) => r matches Some(e) && e@ == m,
            None => r is None,
        },
{
    let ghost gps = pairs_view(ps@);
    if ps.len() != 7 {
        return None;
    }
    let name_owner = field_name_chars(0);
    let name_guild = field_name_chars(1);
    let name_url = field_name_chars(2);
    let name_title = field_name_chars(3);
    let name_id = field_name_chars(4);
    let name_duration = field_name_chars(5);
    let name_encoding = field_name_chars(6);
    let mut ix: usize = 0;
    while ix < ps.len()
        invariant
            ix <= ps@.len(),
            gps == pairs_view(ps@),
            gps.len() == ps@.len(),
            name_owner@ == key_owner_id(),
            name_guild@ == key_guild_id(),
            name_url@ == key_url(),
            name_title@ == key_title(),
            name_id@ == key_id(),
            name_duration@ == key_duration(),
            name_encoding@ == key_encoding(),
            forall|j: int| 0 <= j < ix ==> is_field_name(#[trigger] gps[j].0),
        decreases ps@.len() - ix,
    {
        let k = &ps[ix].0;
        let known = crate::json::eq_chars(k, &name_owner) || crate::json::eq_chars(k, &name_guild)
            || crate::json::eq_chars(k, &name_url) || crate::json::eq_chars(k, &name_title)
            || crate::json::eq_chars(k, &name_id) || crate::json::eq_chars(k, &name_duration)
            || crate::json::eq_chars(k, &name_encoding);
        if !known {
            proof {
                assert(!is_field_name(gps[ix as int].0));
            }
            return None;
        }
        ix += 1;
    }
    if count_key(ps, &name_owner) != 1 {
        return None;
    }
    if count_key(ps, &name_guild) != 1 {
        return None;
    }
    if count_key(ps, &name_url) != 1 {
        return None;
    }
    if count_key(ps, &name_title) != 1 {
        return None;
    }
    if count_key(ps, &name_id) != 1 {
        return None;
    }
    if count_key(ps, &name_duration) != 1 {
        return None;
    }
    if count_key(ps, &name_encoding) != 1 {
        return None;
    }
    let owner_ix = match lookup_key(ps, &name_owner) {
        Some(ix2) => ix2,
        None => {
            return None;
        },
    };
    let guild_ix = match lookup_key(ps, &name_guild) {
        Some(ix2) => ix2,
        None => {
            return None;
        },
    };
    let url_ix = match lookup_key(ps, &name_url) {
        Some(ix2) => ix2,
        None => {
            return None;
        },
    };
    let title_ix = match lookup_key(ps, &name_title) {
        Some(ix2) => ix2,
        None => {
            return None;
        },
    };
    let id_ix = match lookup_key(ps, &name_id) {
        Some(ix2) => ix2,
        None => {
            return None;
        },
    };
    let duration_ix = match lookup_key(ps, &name_duration) {
        Some(ix2) => ix2,
        None => {
            return None;
        },
    };
    let encoding_ix = match lookup_key(ps, &name_encoding) {
        Some(ix2) => ix2,
        None => {
            return None;
        },
    };
    let owner_id = match string_field(ps, owner_ix) {
        Some(s) => s,
        None => {
            return None;
        },
    };
    let guild_id = match string_field(ps, guild_ix) {
        Some(s) => s,
        None => {
            return None;
        },
    };
    let url = match string_field(ps, url_ix) {
        Some(s) => s,
        None => {
            return None;
        },
    };
    let title = match string_field(ps, title_ix) {
        Some(s) => s,
        None => {
            return None;
        },
    };
    let id = match string_field(ps, id_ix) {
        Some(s) => s,
        None => {
            return None;
        },
    };
    let encoding = match string_field(ps, encoding_ix) {
        Some(s) => s,
        None => {
            return None;
        },
    };
    let duration: i32 = match &ps[duration_ix].1 {
        JsonVal::Int(n) => {
            let n = *n;
            if n < -2147483648i64 || n > 2147483647i64 {
                return None;
            }
            n as i32
        },
        JsonVal::Str(_) => {
            return None;
        },
    };
    Some(PlaylistEntry { owner_id, guild_id, url, title, id, duration, encoding })
}

/// Decodes one queue list element.  Succeeds on exactly the texts that
/// `parse_entry_spec` accepts, and then yields exactly that entry.
pub fn entry_from_json(s: &str) -> (r: Option<PlaylistEntry>)
    ensures
        match parse_entry_spec(s@) {
            Some(m) => r matches Some(e) && e@ == m,
            None => r is None,
        },
{
    let v = chars_of(s);
    let i = skip_ws(&v, 0);
    if !(i < v.len()) {
        return None;
    }
    if v[i] != '{' {
        return None;
    }
    let j = skip_ws(&v, i + 1);
    if j < v.len() && v[j] == '}' {
        proof {
            assert(build_entry(Seq::<(Seq<char>, GJsonVal)>::empty()) is None);
        }
        return None;
    }
    let (ps, w) = match parse_members(&v, j) {
        Some(p) => p,
        None => {
            return None;
        },
    };
    let k = skip_ws(&v, w);
    if k != v.len() {
        return None;
    }
    build_entry_exec(&ps)
}


/// The JSON text an entry serializes to: one object with the seven
/// fields in a fixed order and no whitespace.
pub open spec fn entry_json(m: EntryView) -> Seq<char> {
    ("{\"ownerId\":")@ + crate::json::quoted(m.owner_id) + (",\"guildId\":")@
        + crate::json::quoted(m.guild_id) + (",\"url\":")@ + crate::json::quoted(m.url) + (
    ",\"title\":")@ + crate::json::quoted(m.title) + (",\"id\":")@ + crate::json::quoted(m.id)
        + (",\"duration\":")@ + crate::text::int_chars(m.duration) + (",\"encoding\":")@
        + crate::json::quoted(m.encoding) + ("}")@
}

/// Serializes an entry to JSON, exactly as `entry_json` describes.
pub fn entry_to_json(e: &PlaylistEntry) -> (r: String)
    ensures
        r@ == entry_json(e@),
{
    let mut out = String::from_str("{\"ownerId\":");
    crate::json::append_quoted(&mut out, &e.owner_id);
    out.append(",\"guildId\":");
    crate::json::append_quoted(&mut out, &e.guild_id);
    out.append(",\"url\":");
    crate::json::append_quoted(&mut out, &e.url);
    out.append(",\"title\":");
    crate::json::append_quoted(&mut out, &e.title);
    out.append(",\"id\":");
    crate::json::append_quoted(&mut out, &e.id);
    out.append(",\"duration\":");
    let d = crate::text::i64_dec_string(e.duration as i64);
    out.append(d.as_str());
    out.append(",\"encoding\":");
    crate::json::append_quoted(&mut out, &e.encoding);
    out.append("}");
    proof {
        assert(out@ =~= entry_json(e@));
    }
    out
}


/// None of the seven field names contains a character that escaping
/// would change.
proof fn lemma_keys_plain()
    ensures
        crate::json::escape_seq(key_owner_id()) == key_owner_id(),
        crate::json::escape_seq(key_guild_id()) == key_guild_id(),
        crate::json::escape_seq(key_url()) == key_url(),
        crate::json::escape_seq(key_title()) == key_title(),
        crate::json::escape_seq(key_id()) == key_id(),
        crate::json::escape_seq(key_duration()) == key_duration(),
        crate::json::escape_seq(key_encoding()) == key_encoding(),
{
    assert forall|i: int|
        0 <= i < key_owner_id().len() implies !crate::json::needs_escape(
        #[trigger] key_owner_id()[i],
    ) by {}
    crate::json::lemma_escape_plain(key_owner_id());
    assert forall|i: int|
        0 <= i < key_guild_id().len() implies !crate::json::needs_escape(
        #[trigger] key_guild_id()[i],
    ) by {}
    crate::json::lemma_escape_plain(key_guild_id());
    assert forall|i: int|
        0 <= i < key_url().len() implies !crate::json::needs_escape(#[trigger] key_url()[i]) by {}
    crate::json::lemma_escape_plain(key_url());
    assert forall|i: int|
        0 <= i < key_title().len() implies !crate::json::needs_escape(
        #[trigger] key_title()[i],
    ) by {}
    crate::json::lemma_escape_plain(key_title());
    assert forall|i: int|
        0 <= i < key_id().len() implies !crate::json::needs_escape(#[trigger] key_id()[i]) by {}
    crate::json::lemma_escape_plain(key_id());
    assert forall|i: int|
        0 <= i < key_duration().len() implies !crate::json::needs_escape(
        #[trigger] key_duration()[i],
    ) by {}
    crate::json::lemma_escape_plain(key_duration());
    assert forall|i: int|
        0 <= i < key_encoding().len() implies !crate::json::needs_escape(
        #[trigger] key_encoding()[i],
    ) by {}
    crate::json::lemma_escape_plain(key_encoding());
}

/// The seven members, in serialization order, that an entry's JSON
/// object carries.
pub open spec fn entry_pairs(m: EntryView) -> Seq<(Seq<char>, GJsonVal)> {
    seq![
        (key_owner_id(), GJsonVal::Str(m.owner_id)),
        (key_guild_id(), GJsonVal::Str(m.guild_id)),
        (key_url(), GJsonVal::Str(m.url)),
        (key_title(), GJsonVal::Str(m.title)),
        (key_id(), GJsonVal::Str(m.id)),
        (key_duration(), GJsonVal::Int(m.duration)),
        (key_encoding(), GJsonVal::Str(m.encoding)),
    ]
}

/// The fixed texts between the serialized fields, decomposed into the
/// brace, quoted field names and separators they consist of.
proof fn lemma_literal_shapes()
    ensures
        ("{\"ownerId\":")@ == seq!['{'] + crate::json::quoted(key_owner_id()) + seq![':'],
        (",\"guildId\":")@ == seq![','] + crate::json::quoted(key_guild_id()) + seq![':'],
        (",\"url\":")@ == seq![','] + crate::json::quoted(key_url()) + seq![':'],
        (",\"title\":")@ == seq![','] + crate::json::quoted(key_title()) + seq![':'],
        (",\"id\":")@ == seq![','] + crate::json::quoted(key_id()) + seq![':'],
        (",\"duration\":")@ == seq![','] + crate::json::quoted(key_duration()) + seq![':'],
        (",\"encoding\":")@ == seq![','] + crate::json::quoted(key_encoding()) + seq![':'],
        ("}")@ == seq!['}'],
{
    lemma_keys_plain();
    reveal_strlit("{\"ownerId\":");
    reveal_strlit(",\"guildId\":");
    reveal_strlit(",\"url\":");
    reveal_strlit(",\"title\":");
    reveal_strlit(",\"id\":");
    reveal_strlit(",\"duration\":");
    reveal_strlit(",\"encoding\":");
    reveal_strlit("}");
    assert(("{\"ownerId\":")@ =~= seq!['{'] + crate::json::quoted(key_owner_id()) + seq![':']);
    assert((",\"guildId\":")@ =~= seq![','] + crate::json::quoted(key_guild_id()) + seq![':']);
    assert((",\"url\":")@ =~= seq![','] + crate::json::quoted(key_url()) + seq![':']);
    assert((",\"title\":")@ =~= seq![','] + crate::json::quoted(key_title()) + seq![':']);
    assert((",\"id\":")@ =~= seq![','] + crate::json::quoted(key_id()) + seq![':']);
    assert((",\"duration\":")@ =~= seq![','] + crate::json::quoted(key_duration()) + seq![':']);
    assert((",\"encoding\":")@ =~= seq![','] + crate::json::quoted(key_encoding()) + seq![':']);
    assert(("}")@ =~= seq!['}']);
}

/// The back half of the serialized entry: the `id`, `duration` and
/// `encoding` members and the closing brace.
#[verifier::rlimit(100)]
proof fn lemma_entry_json_shape_back(m: EntryView)
    ensures
        (",\"id\":")@ + crate::json::quoted(m.id) + ((",\"duration\":")@
            + crate::text::int_chars(m.duration) + ((",\"encoding\":")@ + crate::json::quoted(
            m.encoding,
        ) + ("}")@)) == seq![','] + crate::json::members_text(entry_pairs(m).subrange(4, 7)),
{
    let ps = entry_pairs(m);
    let p4 = ps[4];
    let p5 = ps[5];
    let p6 = ps[6];
    lemma_literal_shapes();
    let ps4 = seq![p4, p5, p6];
    let ps5 = seq![p5, p6];
    let ps6 = seq![p6];
    assert(ps.subrange(4, 7) =~= ps4);
    assert(ps4.drop_first() =~= ps5);
    assert(ps5.drop_first() =~= ps6);
    let m6 = crate::json::members_text(ps6);
    let m5 = crate::json::members_text(ps5);
    let m4 = crate::json::members_text(ps4);
    assert(m6 == crate::json::pair_text(p6) + seq!['}']);
    assert(m5 == crate::json::pair_text(p5) + seq![','] + m6);
    assert(m4 == crate::json::pair_text(p4) + seq![','] + m5);
    let a6 = (",\"encoding\":")@ + crate::json::quoted(m.encoding) + ("}")@;
    assert(a6 =~= seq![','] + m6);
    let a5 = (",\"duration\":")@ + crate::text::int_chars(m.duration) + a6;
    assert(a5 =~= seq![','] + m5);
    let a4 = (",\"id\":")@ + crate::json::quoted(m.id) + a5;
    assert(a4 =~= seq![','] + m4);
}

/// The serialized entry is one brace followed by its serialized members.
#[verifier::rlimit(100)]
proof fn lemma_entry_json_shape(m: EntryView)
    ensures
        entry_json(m) == seq!['{'] + crate::json::members_text(entry_pairs(m)),
{
    let ps = entry_pairs(m);
    let p0 = ps[0];
    let p1 = ps[1];
    let p2 = ps[2];
    let p3 = ps[3];
    lemma_literal_shapes();
    lemma_entry_json_shape_back(m);
    let ps1 = seq![p1, p2, p3, ps[4], ps[5], ps[6]];
    let ps2 = seq![p2, p3, ps[4], ps[5], ps[6]];
    let ps3 = seq![p3, ps[4], ps[5], ps[6]];
    let ps4 = seq![ps[4], ps[5], ps[6]];
    assert(ps.drop_first() =~= ps1);
    assert(ps1.drop_first() =~= ps2);
    assert(ps2.drop_first() =~= ps3);
    assert(ps3.drop_first() =~= ps4);
    assert(ps.subrange(4, 7) =~= ps4);
    let m4 = crate::json::members_text(ps4);
    let m3 = crate::json::members_text(ps3);
    let m2 = crate::json::members_text(ps2);
    let m1 = crate::json::members_text(ps1);
    let mt = crate::json::members_text(ps);
    assert(m3 == crate::json::pair_text(p3) + seq![','] + m4);
    assert(m2 == crate::json::pair_text(p2) + seq![','] + m3);
    assert(m1 == crate::json::pair_text(p1) + seq![','] + m2);
    assert(mt == crate::json::pair_text(p0) + seq![','] + m1);
    let a4 = (",\"id\":")@ + crate::json::quoted(m.id) + ((",\"duration\":")@
        + crate::text::int_chars(m.duration) + ((",\"encoding\":")@ + crate::json::quoted(
        m.encoding,
    ) + ("}")@));
    assert(a4 == seq![','] + m4);
    let a3 = (",\"title\":")@ + crate::json::quoted(m.title) + a4;
    assert(a3 =~= seq![','] + m3);
    let a2 = (",\"url\":")@ + crate::json::quoted(m.url) + a3;
    assert(a2 =~= seq![','] + m2);
    let a1 = (",\"guildId\":")@ + crate::json::quoted(m.guild_id) + a2;
    assert(a1 =~= seq![','] + m1);
    let a0 = ("{\"ownerId\":")@ + crate::json::quoted(m.owner_id) + a1;
    assert(a0 =~= seq!['{'] + mt);
    assert(entry_json(m) =~= a0);
    assert(entry_json(m) =~= seq!['{'] + mt);
}

/// The seven serialized members build back exactly the entry.
#[verifier::rlimit(100)]
proof fn lemma_entry_pairs_build(m: EntryView)
    requires
        i32::MIN <= m.duration <= i32::MAX,
    ensures
        build_entry(entry_pairs(m)) == Some(m),
{
    let ps = entry_pairs(m);
    assert(key_owner_id() != key_guild_id());
    assert(key_duration() != key_encoding());
    reveal_with_fuel(crate::json::key_count, 9);
    reveal_with_fuel(crate::json::slookup, 9);
    let ps1 = seq![ps[1], ps[2], ps[3], ps[4], ps[5], ps[6]];
    let ps2 = seq![ps[2], ps[3], ps[4], ps[5], ps[6]];
    let ps3 = seq![ps[3], ps[4], ps[5], ps[6]];
    let ps4 = seq![ps[4], ps[5], ps[6]];
    let ps5 = seq![ps[5], ps[6]];
    let ps6 = seq![ps[6]];
    assert(ps.drop_first() =~= ps1);
    assert(ps1.drop_first() =~= ps2);
    assert(ps2.drop_first() =~= ps3);
    assert(ps3.drop_first() =~= ps4);
    assert(ps4.drop_first() =~= ps5);
    assert(ps5.drop_first() =~= ps6);
    assert(ps6.drop_first() =~= Seq::<(Seq<char>, GJsonVal)>::empty());
    assert(key_count(ps, key_owner_id()) == 1);
    assert(key_count(ps, key_guild_id()) == 1);
    assert(key_count(ps, key_url()) == 1);
    assert(key_count(ps, key_title()) == 1);
    assert(key_count(ps, key_id()) == 1);
    assert(key_count(ps, key_duration()) == 1);
    assert(key_count(ps, key_encoding()) == 1);
    assert(slookup(ps, key_owner_id()) == Some(GJsonVal::Str(m.owner_id)));
    assert(slookup(ps, key_guild_id()) == Some(GJsonVal::Str(m.guild_id)));
    assert(slookup(ps, key_url()) == Some(GJsonVal::Str(m.url)));
    assert(slookup(ps, key_title()) == Some(GJsonVal::Str(m.title)));
    assert(slookup(ps, key_id()) == Some(GJsonVal::Str(m.id)));
    assert(slookup(ps, key_duration()) == Some(GJsonVal::Int(m.duration)));
    assert(slookup(ps, key_encoding()) == Some(GJsonVal::Str(m.encoding)));
    assert forall|ix: int| 0 <= ix < ps.len() implies is_field_name(#[trigger] ps[ix].0) by {}
    assert(build_entry(ps) == Some(m));
}

/// Law: serializing any entry to JSON and decoding the result yields the
/// same entry back, field for field.
#[verifier::rlimit(100)]
pub proof fn lemma_entry_json_round_trip(m: EntryView)
    requires
        i32::MIN <= m.duration <= i32::MAX,
    ensures
        parse_entry_spec(entry_json(m)) == Some(m),
{
    let s = entry_json(m);
    let ps = entry_pairs(m);
    let mt = crate::json::members_text(ps);
    lemma_entry_json_shape(m);
    assert(s == seq!['{'] + mt);
    assert(mt.len() >= 1) by {
        assert(mt == crate::json::pair_text(ps[0]) + seq![','] + crate::json::members_text(
            ps.drop_first(),
        ));
    }
    assert(s[0] == '{');
    assert(!crate::text::is_ws('{'));
    assert(sskip_ws(s, 0) == 0);
    assert(mt[0] == crate::json::pair_text(ps[0])[0]) by {
        assert(mt == crate::json::pair_text(ps[0]) + seq![','] + crate::json::members_text(
            ps.drop_first(),
        ));
        assert(crate::json::pair_text(ps[0]).len() >= 1);
    }
    assert(crate::json::pair_text(ps[0])[0] == crate::json::quoted(key_owner_id())[0]);
    assert(mt[0] == '"');
    assert(s[1] == mt[0]);
    assert(sskip_ws(s, 1) == 1);
    assert(s[1] != '}');
    assert(s.len() == 1 + mt.len());
    assert forall|k: int| 0 <= k < mt.len() implies s[1 + k] == #[trigger] mt[k] by {
        assert(s == seq!['{'] + mt);
    }
    assert forall|ix: int|
        0 <= ix < ps.len() implies ((#[trigger] ps[ix].1) matches GJsonVal::Int(n) ==> i64::MIN
        <= n <= i64::MAX) by {}
    crate::json::lemma_members_round(s, 1, ps);
    assert(sparse_members(s, 1) == Some((ps, s.len() as int)));
    assert(sskip_ws(s, s.len() as int) == s.len());
    lemma_entry_pairs_build(m);
    assert(parse_entry_spec(s) == Some(m));
}

} // verus!

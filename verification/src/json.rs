//! The playlist-entry wire format: a flat JSON object whose values are
//! strings or integers.  A specification-level parser defines exactly
//! which texts decode, an executable parser is proved to agree with it,
//! and a serializer is proved to produce texts the parser maps back.

use crate::text::digits_val;
use crate::text::is_digit;
use crate::text::digit;
use crate::text::is_ws;
use crate::text::ws;
use crate::text::lemma_digits_val_nonneg;
use vstd::prelude::*;

verus! {

/// A decoded JSON scalar: the only value shapes the entry format uses.
pub enum JsonVal {
    /// A JSON string, by its decoded characters.
    Str(Vec<char>),
    /// A JSON integer.
    Int(i64),
}

/// The mathematical shape of a decoded JSON scalar.
pub ghost enum GJsonVal {
    Str(Seq<char>),
    Int(int),
}

impl View for JsonVal {
    type V = GJsonVal;

    open spec fn view(&self) -> GJsonVal {
        match self {
            JsonVal::Str(v) => GJsonVal::Str(v@),
            JsonVal::Int(n) => GJsonVal::Int(*n as int),
        }
    }
}

/// The first position at or after `i` that does not hold whitespace.
pub open spec fn sskip_ws(s: Seq<char>, i: int) -> int
    decreases s.len() - i,
{
    if 0 <= i < s.len() && is_ws(s[i]) {
        sskip_ws(s, i + 1)
    } else {
        i
    }
}


/// Executable whitespace skipping, agreeing with `sskip_ws`.
pub fn skip_ws(v: &Vec<char>, i: usize) -> (j: usize)
    requires
        i <= v@.len(),
    ensures
        j as int == sskip_ws(v@, i as int),
        i <= j <= v@.len(),
{
    let mut j = i;
    while j < v.len() && ws(v[j])
        invariant
            i <= j <= v@.len(),
            sskip_ws(v@, i as int) == sskip_ws(v@, j as int),
        decreases v@.len() - j,
    {
        j += 1;
    }
    j
}

/// The characters that may follow a backslash inside a JSON string here.
pub open spec fn is_escape_code(c: char) -> bool {
    c == '"' || c == '\\' || c == 'n' || c == 'r' || c == 't'
}

/// The character an escape code stands for.
pub open spec fn unescape_char(c: char) -> char {
    if c == '"' {
        '"'
    } else if c == '\\' {
        '\\'
    } else if c == 'n' {
        '\n'
    } else if c == 'r' {
        '\r'
    } else {
        '\t'
    }
}

/// Parses a string body starting at `i`, just after the opening quote:
/// the decoded content and the position just past the closing quote.
/// A backslash must carry one of the five escape codes; every other
/// character stands for itself.
pub open spec fn sparse_str(s: Seq<char>, i: int) -> Option<(Seq<char>, int)>
    decreases s.len() - i,
{
    if i < 0 || i >= s.len() {
        None
    } else if s[i] == '"' {
        Some((Seq::empty(), i + 1))
    } else if s[i] == '\\' {
        if i + 1 < s.len() && is_escape_code(s[i + 1]) {
            match sparse_str(s, i + 2) {
                None => None,
                Some((t, j)) => Some((seq![unescape_char(s[i + 1])] + t, j)),
            }
        } else {
            None
        }
    } else {
        match sparse_str(s, i + 1) {
            None => None,
            Some((t, j)) => Some((seq![s[i]] + t, j)),
        }
    }
}


/// Executable string-body parsing, agreeing with `sparse_str`.
pub fn parse_str(v: &Vec<char>, i: usize) -> (r: Option<(Vec<char>, usize)>)
    requires
        i <= v@.len(),
    ensures
        match sparse_str(v@, i as int) {
            Some((t, j)) => r matches Some(p) && p.0@ == t && p.1 as int == j && i < p.1
                <= v@.len(),
            None => r is None,
        },
{
    let mut acc: Vec<char> = Vec::new();
    let mut j = i;
    loop
        invariant
            i <= j <= v@.len(),
            match sparse_str(v@, i as int) {
                Some((t, k)) => sparse_str(v@, j as int) matches Some(u) && acc@ + u.0 == t && u.1
                    == k,
                None => sparse_str(v@, j as int) is None,
            },
        decreases v@.len() - j,
    {
        if j >= v.len() {
            return None;
        }
        let c = v[j];
        if c == '"' {
            proof {
                assert(acc@ + Seq::<char>::empty() =~= acc@);
            }
            return Some((acc, j + 1));
        } else if c == '\\' {
            if j + 1 < v.len() {
                let e = v[j + 1];
                if e == '"' || e == '\\' || e == 'n' || e == 'r' || e == 't' {
                    let u = if e == '"' {
                        '"'
                    } else if e == '\\' {
                        '\\'
                    } else if e == 'n' {
                        '\n'
                    } else if e == 'r' {
                        '\r'
                    } else {
                        '\t'
                    };
                    let ghost accb = acc@;
                    acc.push(u);
                    proof {
                        if sparse_str(v@, j as int + 2) is Some {
                            let u2 = sparse_str(v@, j as int + 2)->Some_0;
                            assert(accb + (seq![unescape_char(v@[j as int + 1])] + u2.0) =~= acc@
                                + u2.0);
                        }
                    }
                    j += 2;
                } else {
                    return None;
                }
            } else {
                return None;
            }
        } else {
            let ghost accb = acc@;
            acc.push(c);
            proof {
                if sparse_str(v@, j as int + 1) is Some {
                    let u2 = sparse_str(v@, j as int + 1)->Some_0;
                    assert(accb + (seq![v@[j as int]] + u2.0) =~= acc@ + u2.0);
                }
            }
            j += 1;
        }
    }
}

/// The end of the digit run beginning at `i`.
pub open spec fn digits_end(s: Seq<char>, i: int) -> int
    decreases s.len() - i,
{
    if 0 <= i < s.len() && is_digit(s[i]) {
        digits_end(s, i + 1)
    } else {
        i
    }
}


/// Parses an integer token at `i`: an optional minus sign and then at
/// least one digit, with a value that fits in a signed 64-bit integer.
pub open spec fn sparse_int(s: Seq<char>, i: int) -> Option<(int, int)> {
    if i < 0 || i > s.len() {
        None
    } else {
        let neg = i < s.len() && s[i] == '-';
        let di = if neg {
            i + 1
        } else {
            i
        };
        let j = digits_end(s, di);
        if j == di {
            None
        } else {
            let m = digits_val(s.subrange(di, j));
            let value = if neg {
                -m
            } else {
                m
            };
            if i64::MIN <= value <= i64::MAX {
                Some((value, j))
            } else {
                None
            }
        }
    }
}

/// Executable integer-token parsing, agreeing with `sparse_int`.
pub fn parse_int(v: &Vec<char>, i: usize) -> (r: Option<(i64, usize)>)
    requires
        i <= v@.len(),
    ensures
        match sparse_int(v@, i as int) {
            Some((value, j)) => r matches Some(p) && p.0 as int == value && p.1 as int == j && i
                < p.1 <= v@.len(),
            None => r is None,
        },
{
    let neg = i < v.len() && v[i] == '-';
    let di: usize = if neg {
        i + 1
    } else {
        i
    };
    let mut acc: u128 = 0;
    let mut big = false;
    let mut j = di;
    while j < v.len() && digit(v[j])
        invariant
            i <= di <= j <= v@.len(),
            neg == (i < v@.len() && v@[i as int] == '-'),
            di == if neg {
                i + 1
            } else {
                i as int
            },
            digits_end(v@, di as int) == digits_end(v@, j as int),
            forall|k: int| di <= k < j ==> is_digit(#[trigger] v@[k]),
            !big ==> acc as int == digits_val(v@.subrange(di as int, j as int)) && acc as int
                <= 0x8000_0000_0000_0000,
            big ==> digits_val(v@.subrange(di as int, j as int)) > 0x8000_0000_0000_0000,
        decreases v@.len() - j,
    {
        let c = v[j];
        let d: u32 = (c as u32) - ('0' as u32);
        let ghost sub = v@.subrange(di as int, j as int);
        let ghost sub1 = v@.subrange(di as int, j as int + 1);
        proof {
            assert(sub1.drop_last() =~= sub);
            assert(sub1.last() == v@[j as int]);
            lemma_digits_val_nonneg(sub);
            assert(d as int == crate::text::digit_val(v@[j as int]));
        }
        if big {
            proof {
                assert(digits_val(sub) * 10 >= digits_val(sub)) by (nonlinear_arith)
                    requires
                        digits_val(sub) >= 0,
                ;
            }
        } else {
            proof {
                assert(acc as int <= 0x8000_0000_0000_0000);
                assert(d < 10);
            }
            let nv = acc * 10 + (d as u128);
            if nv > 0x8000_0000_0000_0000u128 {
                big = true;
            } else {
                acc = nv;
            }
        }
        j += 1;
    }
    proof {
        assert(digits_end(v@, j as int) == j);
    }
    if j == di {
        return None;
    }
    let ghost m = digits_val(v@.subrange(di as int, j as int));
    proof {
        lemma_digits_val_nonneg(v@.subrange(di as int, j as int));
    }
    if big {
        return None;
    }
    if neg {
        if acc > 0x8000_0000_0000_0000u128 {
            return None;
        }
        if acc == 0x8000_0000_0000_0000u128 {
            return Some((i64::MIN, j));
        }
        return Some((-(acc as i64), j));
    }
    if acc > 0x7fff_ffff_ffff_ffffu128 {
        return None;
    }
    Some((acc as i64, j))
}


/// Parses a JSON scalar at `i`: a string or an integer token.
pub open spec fn sparse_value(s: Seq<char>, i: int) -> Option<(GJsonVal, int)> {
    if 0 <= i < s.len() && s[i] == '"' {
        match sparse_str(s, i + 1) {
            None => None,
            Some((t, j)) => Some((GJsonVal::Str(t), j)),
        }
    } else {
        match sparse_int(s, i) {
            None => None,
            Some((n, j)) => Some((GJsonVal::Int(n), j)),
        }
    }
}

/// Executable scalar parsing, agreeing with `sparse_value`.
pub fn parse_value(v: &Vec<char>, i: usize) -> (r: Option<(JsonVal, usize)>)
    requires
        i <= v@.len(),
    ensures
        match sparse_value(v@, i as int) {
            Some((g, j)) => r matches Some(p) && p.0@ == g && p.1 as int == j && i < p.1
                <= v@.len(),
            None => r is None,
        },
{
    if i < v.len() && v[i] == '"' {
        match parse_str(v, i + 1) {
            None => None,
            Some((t, j)) => Some((JsonVal::Str(t), j)),
        }
    } else {
        match parse_int(v, i) {
            None => None,
            Some((n, j)) => Some((JsonVal::Int(n), j)),
        }
    }
}

/// Parses object members from the first key at `i` (whitespace already
/// skipped) through the closing brace: the key/value pairs in textual
/// order, and the position just past the brace.
pub open spec fn sparse_members(s: Seq<char>, i: int) -> Option<
    (Seq<(Seq<char>, GJsonVal)>, int),
>
    decreases s.len() - i,
{
    if 0 <= i < s.len() && s[i] == '"' {
        match sparse_str(s, i + 1) {
            None => None,
            Some((key, j)) => {
                let k = sskip_ws(s, j);
                if 0 <= k < s.len() && s[k] == ':' {
                    let m = sskip_ws(s, k + 1);
                    match sparse_value(s, m) {
                        None => None,
                        Some((value, w)) => {
                            let x = sskip_ws(s, w);
                            if 0 <= x < s.len() && s[x] == ',' {
                                let y = sskip_ws(s, x + 1);
                                if i < y <= s.len() {
                                    match sparse_members(s, y) {
                                        None => None,
                                        Some((rest, z)) => Some((seq![(key, value)] + rest, z)),
                                    }
                                } else {
                                    None
                                }
                            } else if 0 <= x < s.len() && s[x] == '}' {
                                Some((seq![(key, value)], x + 1))
                            } else {
                                None
                            }
                        },
                    }
                } else {
                    None
                }
            },
        }
    } else {
        None
    }
}

/// The mathematical contents of an executable pair list.
pub open spec fn pairs_view(ps: Seq<(Vec<char>, JsonVal)>) -> Seq<(Seq<char>, GJsonVal)> {
    ps.map_values(|p: (Vec<char>, JsonVal)| (p.0@, p.1@))
}

/// Executable member parsing, agreeing with `sparse_members`.
pub fn parse_members(v: &Vec<char>, i: usize) -> (r: Option<(Vec<(Vec<char>, JsonVal)>, usize)>)
    requires
        i <= v@.len(),
    ensures
        match sparse_members(v@, i as int) {
            Some((ps, w)) => r matches Some(p) && pairs_view(p.0@) == ps && p.1 as int == w && p.1
                <= v@.len(),
            None => r is None,
        },
{
    let mut acc: Vec<(Vec<char>, JsonVal)> = Vec::new();
    let mut j = i;
    loop
        invariant
            j <= v@.len(),
            match sparse_members(v@, i as int) {
                Some((ps, w)) => sparse_members(v@, j as int) matches Some(u) && pairs_view(acc@)
                    + u.0 == ps && u.1 == w,
                None => sparse_members(v@, j as int) is None,
            },
        decreases v@.len() - j,
    {
        if !(j < v.len()) {
            return None;
        }
        if v[j] != '"' {
            return None;
        }
        let (key, j2) = match parse_str(v, j + 1) {
            Some(p) => p,
            None => {
                return None;
            },
        };
        let k = skip_ws(v, j2);
        if !(k < v.len()) {
            return None;
        }
        if v[k] != ':' {
            return None;
        }
        let m = skip_ws(v, k + 1);
        let (value, w) = match parse_value(v, m) {
            Some(p) => p,
            None => {
                return None;
            },
        };
        let x = skip_ws(v, w);
        if x < v.len() && v[x] == ',' {
            let y = skip_ws(v, x + 1);
            let ghost accb = pairs_view(acc@);
            let ghost gpair = (key@, value@);
            acc.push((key, value));
            proof {
                assert(pairs_view(acc@) =~= accb.push(gpair));
                if sparse_members(v@, y as int) is Some {
                    let u2 = sparse_members(v@, y as int)->Some_0;
                    assert(accb + (seq![gpair] + u2.0) =~= pairs_view(acc@) + u2.0);
                }
            }
            j = y;
        } else if x < v.len() && v[x] == '}' {
            let ghost accb = pairs_view(acc@);
            let ghost gpair = (key@, value@);
            acc.push((key, value));
            proof {
                assert(pairs_view(acc@) =~= accb.push(gpair));
                assert(accb + seq![gpair] =~= pairs_view(acc@));
            }
            return Some((acc, x + 1));
        } else {
            return None;
        }
    }
}

/// How many pairs carry `key`.
pub open spec fn key_count(ps: Seq<(Seq<char>, GJsonVal)>, key: Seq<char>) -> nat
    decreases ps.len(),
{
    if ps.len() == 0 {
        0
    } else {
        (if ps[0].0 == key {
            1nat
        } else {
            0nat
        }) + key_count(ps.drop_first(), key)
    }
}

/// The value of the first pair that carries `key`.
pub open spec fn slookup(ps: Seq<(Seq<char>, GJsonVal)>, key: Seq<char>) -> Option<GJsonVal>
    decreases ps.len(),
{
    if ps.len() == 0 {
        None
    } else if ps[0].0 == key {
        Some(ps[0].1)
    } else {
        slookup(ps.drop_first(), key)
    }
}

/// Character-wise equality of two vectors.
pub fn eq_chars(a: &Vec<char>, b: &Vec<char>) -> (r: bool)
    ensures
        r == (a@ == b@),
{
    if a.len() != b.len() {
        return false;
    }
    let mut i: usize = 0;
    while i < a.len()
        invariant
            a@.len() == b@.len(),
            i <= a@.len(),
            forall|j: int| 0 <= j < i ==> a@[j] == b@[j],
        decreases a@.len() - i,
    {
        if a[i] != b[i] {
            return false;
        }
        i += 1;
    }
    proof {
        assert(a@ =~= b@);
    }
    true
}

/// Counts the pairs whose key is `key`, agreeing with `key_count`.
pub fn count_key(ps: &Vec<(Vec<char>, JsonVal)>, key: &Vec<char>) -> (n: usize)
    ensures
        n as nat == key_count(pairs_view(ps@), key@),
{
    let ghost full = pairs_view(ps@);
    proof {
        assert(full.subrange(0, full.len() as int) =~= full);
    }
    let mut n: usize = 0;
    let mut i: usize = 0;
    while i < ps.len()
        invariant
            i <= ps@.len(),
            n <= i,
            full == pairs_view(ps@),
            full.len() == ps@.len(),
            key_count(full, key@) == n + key_count(full.subrange(i as int, full.len() as int), key@),
        decreases ps@.len() - i,
    {
        let ghost tail = full.subrange(i as int, full.len() as int);
        proof {
            assert(tail.drop_first() =~= full.subrange(i as int + 1, full.len() as int));
            assert(tail[0] == full[i as int]);
        }
        if eq_chars(&ps[i].0, key) {
            n += 1;
        }
        i += 1;
    }
    proof {
        assert(full.subrange(full.len() as int, full.len() as int) =~= Seq::<
            (Seq<char>, GJsonVal),
        >::empty());
    }
    n
}

/// Finds the first pair whose key is `key`, agreeing with `slookup`.
pub fn lookup_key(ps: &Vec<(Vec<char>, JsonVal)>, key: &Vec<char>) -> (r: Option<usize>)
    ensures
        match slookup(pairs_view(ps@), key@) {
            Some(g) => r matches Some(ix) && ix < ps@.len() && ps@[ix as int].0@ == key@
                && ps@[ix as int].1@ == g,
            None => r is None,
        },
{
    let ghost full = pairs_view(ps@);
    proof {
        assert(full.subrange(0, full.len() as int) =~= full);
    }
    let mut i: usize = 0;
    while i < ps.len()
        invariant
            i <= ps@.len(),
            full == pairs_view(ps@),
            full.len() == ps@.len(),
            slookup(full, key@) == slookup(full.subrange(i as int, full.len() as int), key@),
        decreases ps@.len() - i,
    {
        let ghost tail = full.subrange(i as int, full.len() as int);
        proof {
            assert(tail.drop_first() =~= full.subrange(i as int + 1, full.len() as int));
            assert(tail[0] == full[i as int]);
        }
        if eq_chars(&ps[i].0, key) {
            return Some(i);
        }
        i += 1;
    }
    proof {
        assert(full.subrange(full.len() as int, full.len() as int) =~= Seq::<
            (Seq<char>, GJsonVal),
        >::empty());
    }
    None
}


/// The escaped form of one character inside a quoted string: the five
/// escape codes for the characters that need one, the character itself
/// otherwise.
pub open spec fn escape_char(c: char) -> Seq<char> {
    if c == '"' {
        seq!['\\', '"']
    } else if c == '\\' {
        seq!['\\', '\\']
    } else if c == '\n' {
        seq!['\\', 'n']
    } else if c == '\r' {
        seq!['\\', 'r']
    } else if c == '\t' {
        seq!['\\', 't']
    } else {
        seq![c]
    }
}

/// The escaped form of a whole string.
pub open spec fn escape_seq(s: Seq<char>) -> Seq<char>
    decreases s.len(),
{
    if s.len() == 0 {
        Seq::empty()
    } else {
        escape_seq(s.drop_last()) + escape_char(s.last())
    }
}

/// The quoted form of a string: escaped content between double quotes.
pub open spec fn quoted(s: Seq<char>) -> Seq<char> {
    seq!['"'] + escape_seq(s) + seq!['"']
}

/// Appends the quoted form of `s` to `out`.
pub fn append_quoted(out: &mut String, s: &String)
    ensures
        final(out)@ == old(out)@ + quoted(s@),
{
    let v = crate::text::chars_of(s.as_str());
    crate::text::push_char(out, '"');
    let ghost base = out@;
    let mut i: usize = 0;
    while i < v.len()
        invariant
            i <= v@.len(),
            base == old(out)@ + seq!['"'],
            v@ == s@,
            out@ == base + escape_seq(v@.subrange(0, i as int)),
        decreases v@.len() - i,
    {
        let ghost pre = v@.subrange(0, i as int);
        let ghost pre1 = v@.subrange(0, i as int + 1);
        let c = v[i];
        if c == '"' {
            crate::text::push_char(out, '\\');
            crate::text::push_char(out, '"');
        } else if c == '\\' {
            crate::text::push_char(out, '\\');
            crate::text::push_char(out, '\\');
        } else if c == '\n' {
            crate::text::push_char(out, '\\');
            crate::text::push_char(out, 'n');
        } else if c == '\r' {
            crate::text::push_char(out, '\\');
            crate::text::push_char(out, 'r');
        } else if c == '\t' {
            crate::text::push_char(out, '\\');
            crate::text::push_char(out, 't');
        } else {
            crate::text::push_char(out, c);
        }
        proof {
            assert(pre1.drop_last() =~= pre);
            assert(pre1.last() == v@[i as int]);
            assert(escape_seq(pre1) == escape_seq(pre) + escape_char(v@[i as int]));
            assert(out@ =~= base + escape_seq(pre1));
        }
        i += 1;
    }
    proof {
        assert(v@.subrange(0, v@.len() as int) =~= v@);
    }
    crate::text::push_char(out, '"');
    proof {
        assert(out@ =~= old(out)@ + quoted(s@));
    }
}


/// True of the characters whose escaped form is two characters long.
pub open spec fn needs_escape(c: char) -> bool {
    c == '"' || c == '\\' || c == '\n' || c == '\r' || c == '\t'
}

/// Escaping can be read off from the front as well as from the back.
pub proof fn lemma_escape_first(s: Seq<char>)
    requires
        s.len() > 0,
    ensures
        escape_seq(s) == escape_char(s[0]) + escape_seq(s.drop_first()),
    decreases s.len(),
{
    if s.len() == 1 {
        assert(s.drop_last() =~= Seq::<char>::empty());
        assert(s.drop_first() =~= Seq::<char>::empty());
        assert(escape_seq(s) =~= escape_char(s[0]) + escape_seq(s.drop_first()));
    } else {
        let d = s.drop_last();
        lemma_escape_first(d);
        assert(d.drop_first() =~= s.drop_first().drop_last());
        assert(s.drop_first().last() == s.last());
        assert(escape_seq(s) == escape_seq(d) + escape_char(s.last()));
        assert(escape_seq(s.drop_first()) == escape_seq(s.drop_first().drop_last()) + escape_char(
            s.last(),
        ));
        assert(escape_seq(s) =~= escape_char(s[0]) + escape_seq(s.drop_first()));
    }
}

/// A string without escape-needing characters escapes to itself.
pub proof fn lemma_escape_plain(s: Seq<char>)
    requires
        forall|i: int| 0 <= i < s.len() ==> !needs_escape(#[trigger] s[i]),
    ensures
        escape_seq(s) == s,
    decreases s.len(),
{
    if s.len() > 0 {
        lemma_escape_plain(s.drop_last());
        assert(!needs_escape(s.last()));
        assert(escape_char(s.last()) =~= seq![s.last()]);
        assert(escape_seq(s) =~= s);
    }
}

/// Running the string parser over the escaped form of `content`
/// followed by a closing quote recovers exactly `content`.
pub proof fn lemma_sparse_str_round(s: Seq<char>, i: int, content: Seq<char>)
    requires
        0 <= i,
        i + escape_seq(content).len() + 1 <= s.len(),
        forall|k: int|
            0 <= k < escape_seq(content).len() ==> s[i + k] == #[trigger] escape_seq(content)[k],
        s[i + escape_seq(content).len()] == '"',
    ensures
        sparse_str(s, i) == Some((content, i + escape_seq(content).len() + 1)),
    decreases content.len(),
{
    if content.len() == 0 {
        assert(escape_seq(content).len() == 0);
        assert(s[i] == '"');
        assert(sparse_str(s, i) == Some((Seq::<char>::empty(), i + 1)));
        assert(content =~= Seq::<char>::empty());
    } else {
        let c = content[0];
        let rest = content.drop_first();
        lemma_escape_first(content);
        let e0 = escape_char(c);
        let erest = escape_seq(rest);
        assert(escape_seq(content) == e0 + erest);
        if needs_escape(c) {
            assert(e0.len() == 2);
            assert(s[i] == escape_seq(content)[0]);
            assert(escape_seq(content)[0] == '\\');
            assert(s[i + 1] == escape_seq(content)[1]);
            assert(is_escape_code(escape_seq(content)[1]));
            assert(unescape_char(escape_seq(content)[1]) == c);
            assert forall|k: int| 0 <= k < erest.len() implies s[i + 2 + k] == #[trigger] erest[k] by {
                assert(s[i + (k + 2)] == escape_seq(content)[k + 2]);
                assert(escape_seq(content)[k + 2] == erest[k]);
            }
            assert(s[i + 2 + erest.len()] == '"');
            lemma_sparse_str_round(s, i + 2, rest);
            assert(s[i] != '"');
            assert(seq![c] + rest =~= content);
        } else {
            assert(e0 =~= seq![c]);
            assert(s[i] == escape_seq(content)[0]);
            assert(escape_seq(content)[0] == c);
            assert(c != '"' && c != '\\');
            assert forall|k: int| 0 <= k < erest.len() implies s[i + 1 + k] == #[trigger] erest[k] by {
                assert(s[i + (k + 1)] == escape_seq(content)[k + 1]);
                assert(escape_seq(content)[k + 1] == erest[k]);
            }
            assert(s[i + 1 + erest.len()] == '"');
            lemma_sparse_str_round(s, i + 1, rest);
            assert(seq![c] + rest =~= content);
        }
    }
}

/// A run of digits bounded by a non-digit (or the end) is exactly what
/// `digits_end` spans.
pub proof fn lemma_digits_end_run(s: Seq<char>, i: int, j: int)
    requires
        0 <= i <= j <= s.len(),
        forall|k: int| i <= k < j ==> is_digit(#[trigger] s[k]),
        j == s.len() || !is_digit(s[j]),
    ensures
        digits_end(s, i) == j,
    decreases j - i,
{
    if i < j {
        lemma_digits_end_run(s, i + 1, j);
    }
}

/// Running the integer parser over the decimal form of `v` recovers
/// exactly `v`, when the next character is not a digit.
pub proof fn lemma_sparse_int_round(s: Seq<char>, i: int, v: int)
    requires
        i64::MIN <= v <= i64::MAX,
        0 <= i,
        i + crate::text::int_chars(v).len() <= s.len(),
        forall|k: int|
            0 <= k < crate::text::int_chars(v).len() ==> s[i + k] == #[trigger] crate::text::int_chars(
                v,
            )[k],
        i + crate::text::int_chars(v).len() == s.len() || !is_digit(
            s[i + crate::text::int_chars(v).len()],
        ),
    ensures
        sparse_int(s, i) == Some((v, i + crate::text::int_chars(v).len())),
{
    let t = crate::text::int_chars(v);
    if v < 0 {
        let d = crate::text::dec_digits((-v) as nat);
        crate::text::lemma_dec_digits_shape((-v) as nat);
        assert(t == seq!['-'] + d);
        assert(s[i] == t[0]);
        assert(t[0] == '-');
        let di = i + 1;
        assert forall|k: int| di <= k < di + d.len() implies is_digit(#[trigger] s[k]) by {
            assert(s[i + (k - i)] == t[k - i]);
            assert(t[k - i] == d[k - i - 1]);
        }
        lemma_digits_end_run(s, di, di + d.len());
        assert(s.subrange(di, di + d.len()) =~= d) by {
            assert forall|k: int| 0 <= k < d.len() implies s.subrange(di, di + d.len())[k] == d[k] by {
                assert(s[i + (k + 1)] == t[k + 1]);
                assert(t[k + 1] == d[k]);
            }
        }
        crate::text::lemma_digits_val_of_dec((-v) as nat);
        assert(sparse_int(s, i) == Some((v, i + t.len())));
    } else {
        let d = crate::text::dec_digits(v as nat);
        crate::text::lemma_dec_digits_shape(v as nat);
        assert(t == d);
        assert(s[i] == t[0]);
        assert(is_digit(t[0]));
        assert(s[i] != '-');
        assert forall|k: int| i <= k < i + d.len() implies is_digit(#[trigger] s[k]) by {
            assert(s[i + (k - i)] == t[k - i]);
        }
        lemma_digits_end_run(s, i, i + d.len());
        assert(s.subrange(i, i + d.len()) =~= d) by {
            assert forall|k: int| 0 <= k < d.len() implies s.subrange(i, i + d.len())[k] == d[k] by {
                assert(s[i + k] == t[k]);
            }
        }
        crate::text::lemma_digits_val_of_dec(v as nat);
        assert(sparse_int(s, i) == Some((v, i + t.len())));
    }
}


/// The serialized text of one JSON scalar.
pub open spec fn gval_text(g: GJsonVal) -> Seq<char> {
    match g {
        GJsonVal::Str(t) => quoted(t),
        GJsonVal::Int(n) => crate::text::int_chars(n),
    }
}

/// The serialized text of one object member: quoted key, colon, value.
pub open spec fn pair_text(p: (Seq<char>, GJsonVal)) -> Seq<char> {
    quoted(p.0) + seq![':'] + gval_text(p.1)
}

/// The serialized text of an object's members, comma separated and
/// closed by the final brace.
pub open spec fn members_text(ps: Seq<(Seq<char>, GJsonVal)>) -> Seq<char>
    decreases ps.len(),
{
    if ps.len() == 0 {
        seq!['}']
    } else if ps.len() == 1 {
        pair_text(ps[0]) + seq!['}']
    } else {
        pair_text(ps[0]) + seq![','] + members_text(ps.drop_first())
    }
}

/// Running the member parser over serialized members recovers exactly
/// the pairs that were serialized.
pub proof fn lemma_members_round(s: Seq<char>, i: int, ps: Seq<(Seq<char>, GJsonVal)>)
    requires
        0 <= i,
        ps.len() >= 1,
        i + members_text(ps).len() <= s.len(),
        forall|k: int|
            0 <= k < members_text(ps).len() ==> s[i + k] == #[trigger] members_text(ps)[k],
        forall|ix: int|
            0 <= ix < ps.len() ==> ((#[trigger] ps[ix].1) matches GJsonVal::Int(n) ==> i64::MIN
                <= n <= i64::MAX),
    ensures
        sparse_members(s, i) == Some((ps, i + members_text(ps).len())),
    decreases ps.len(),
{
    let mt = members_text(ps);
    let p0 = ps[0];
    let key = p0.0;
    let g = p0.1;
    let qk = quoted(key);
    let vt = gval_text(g);
    let pt = pair_text(p0);
    let ek = escape_seq(key);
    assert(pt == qk + seq![':'] + vt);
    assert(qk == seq!['"'] + ek + seq!['"']);
    let tail: Seq<char> = if ps.len() == 1 {
        seq!['}']
    } else {
        seq![','] + members_text(ps.drop_first())
    };
    assert(mt == pt + tail);
    assert(s[i] == mt[0]);
    assert(mt[0] == '"');
    // the key string
    assert forall|k: int| 0 <= k < ek.len() implies s[i + 1 + k] == #[trigger] ek[k] by {
        assert(s[i + (1 + k)] == mt[1 + k]);
        assert(mt[1 + k] == qk[1 + k]);
        assert(qk[1 + k] == ek[k]);
    }
    assert(s[i + 1 + ek.len()] == '"') by {
        assert(s[i + (1 + ek.len())] == mt[1 + ek.len() as int]);
        assert(mt[1 + ek.len() as int] == qk[1 + ek.len() as int]);
    }
    lemma_sparse_str_round(s, i + 1, key);
    let j = i + qk.len();
    assert(sparse_str(s, i + 1) == Some((key, j)));
    // the colon
    assert(s[j] == ':') by {
        assert(s[i + qk.len()] == mt[qk.len() as int]);
        assert(mt[qk.len() as int] == pt[qk.len() as int]);
    }
    assert(sskip_ws(s, j) == j);
    // the value
    let m0 = j + 1;
    let w = m0 + vt.len();
    assert(w == i + pt.len());
    assert forall|k: int| 0 <= k < vt.len() implies s[m0 + k] == #[trigger] vt[k] by {
        assert(s[i + (qk.len() + 1 + k)] == mt[qk.len() as int + 1 + k]);
        assert(mt[qk.len() as int + 1 + k] == pt[qk.len() as int + 1 + k]);
        assert(pt[qk.len() as int + 1 + k] == vt[k]);
    }
    assert(s[w] == tail[0]) by {
        assert(s[i + pt.len()] == mt[pt.len() as int]);
        assert(mt[pt.len() as int] == tail[0]);
    }
    assert(tail[0] == ',' || tail[0] == '}');
    match g {
        GJsonVal::Str(t) => {
            let et = escape_seq(t);
            assert(vt == seq!['"'] + et + seq!['"']);
            assert(s[m0] == vt[0]);
            assert(vt[0] == '"');
            assert(sskip_ws(s, m0) == m0);
            assert forall|k: int| 0 <= k < et.len() implies s[m0 + 1 + k] == #[trigger] et[k] by {
                assert(s[m0 + (1 + k)] == vt[1 + k]);
                assert(vt[1 + k] == et[k]);
            }
            assert(s[m0 + 1 + et.len()] == '"') by {
                assert(s[m0 + (1 + et.len())] == vt[1 + et.len() as int]);
            }
            lemma_sparse_str_round(s, m0 + 1, t);
            assert(sparse_value(s, m0) == Some((g, w)));
        },
        GJsonVal::Int(n) => {
            assert(vt == crate::text::int_chars(n));
            assert(s[m0] == vt[0]);
            if n < 0 {
                assert(vt[0] == '-');
            } else {
                crate::text::lemma_dec_digits_shape(n as nat);
                assert(crate::text::is_digit(vt[0]));
            }
            assert(vt[0] != '"');
            assert(!is_ws(vt[0]));
            assert(sskip_ws(s, m0) == m0);
            assert(!crate::text::is_digit(s[m0 + vt.len()]));
            lemma_sparse_int_round(s, m0, n);
            assert(sparse_value(s, m0) == Some((g, w)));
        },
    }
    assert(sskip_ws(s, w) == w);
    if ps.len() == 1 {
        assert(s[w] == '}');
        assert(s[w] != ',');
        assert(sparse_members(s, i) == Some((seq![(key, g)], w + 1)));
        assert(seq![(key, g)] =~= ps);
        assert(w + 1 == i + mt.len());
    } else {
        let rest = ps.drop_first();
        let mtr = members_text(rest);
        assert(s[w] == ',');
        let y = w + 1;
        assert forall|k: int| 0 <= k < mtr.len() implies s[y + k] == #[trigger] mtr[k] by {
            assert(s[i + (pt.len() + 1 + k)] == mt[pt.len() as int + 1 + k]);
            assert(mt[pt.len() as int + 1 + k] == tail[1 + k]);
            assert(tail[1 + k] == mtr[k]);
        }
        assert(s[y] == mtr[0]);
        assert(mtr[0] == quoted(rest[0].0)[0]);
        assert(mtr[0] == '"');
        assert(sskip_ws(s, y) == y);
        assert forall|ix: int|
            0 <= ix < rest.len() implies ((#[trigger] rest[ix].1) matches GJsonVal::Int(n)
            ==> i64::MIN <= n <= i64::MAX) by {
            assert(rest[ix] == ps[ix + 1]);
            assert((ps[ix + 1].1) matches GJsonVal::Int(n) ==> i64::MIN <= n <= i64::MAX);
        }
        lemma_members_round(s, y, rest);
        assert(sparse_members(s, y) == Some((rest, y + mtr.len())));
        assert(i < y <= s.len());
        assert(sparse_members(s, i) == Some((seq![(key, g)] + rest, y + mtr.len())));
        assert(seq![(key, g)] + rest =~= ps);
        assert(y + mtr.len() == i + mt.len());
    }
}

} // verus!

//! Keyspace discovery: the fixed queue-key naming convention
//! `cardinal.<digits>.music_queue`, matching a single key against it, and
//! filtering a scanned keyspace down to the queues it contains.

use crate::text::chars_of;
use crate::text::digit;
use crate::text::is_digit;
use vstd::prelude::*;
use vstd::string::StrSliceExecFns;

verus! {

/// The fixed leading part of a queue key: `cardinal.`.
pub open spec fn key_prefix() -> Seq<char> {
    seq!['c', 'a', 'r', 'd', 'i', 'n', 'a', 'l', '.']
}

/// The fixed trailing part of a queue key: `.music_queue`.
pub open spec fn key_suffix() -> Seq<char> {
    seq!['.', 'm', 'u', 's', 'i', 'c', '_', 'q', 'u', 'e', 'u', 'e']
}

/// A store key names a queue exactly when it is `cardinal.<digits>.music_queue`
/// with a non-empty run of ASCII digits between the two fixed parts.
pub open spec fn is_queue_key(s: Seq<char>) -> bool {
    &&& s.len() >= 22
    &&& s.subrange(0, 9) == key_prefix()
    &&& s.subrange(s.len() - 12, s.len() as int) == key_suffix()
    &&& forall|i: int| 9 <= i < s.len() - 12 ==> is_digit(#[trigger] s[i])
}

/// The identifier embedded in a queue key: the digit run between the
/// fixed prefix and suffix.
pub open spec fn id_of(s: Seq<char>) -> Seq<char> {
    s.subrange(9, s.len() - 12)
}

/// A discovered queue key together with the identifier captured from it.
pub struct QueueKey {
    /// The raw store key, of the shape `cardinal.<digits>.music_queue`.
    pub full_key: String,
    /// The digit run captured from the key, kept as text and never
    /// parsed to a number.
    pub extracted_id: String,
}

impl QueueKey {
    /// The key obeys the naming convention and the identifier is exactly
    /// its captured digit run.
    pub open spec fn wf(self) -> bool {
        is_queue_key(self.full_key@) && self.extracted_id@ == id_of(self.full_key@)
    }
}

/// The characters of `cardinal.`, for position-by-position comparison.
fn key_prefix_chars() -> (v: Vec<char>)
    ensures
        v@ == key_prefix(),
{
    let mut v: Vec<char> = Vec::new();
    v.push('c');
    v.push('a');
    v.push('r');
    v.push('d');
    v.push('i');
    v.push('n');
    v.push('a');
    v.push('l');
    v.push('.');
    proof {
        assert(v@ =~= key_prefix());
    }
    v
}

/// The characters of `.music_queue`, for position-by-position comparison.
fn key_suffix_chars() -> (v: Vec<char>)
    ensures
        v@ == key_suffix(),
{
    let mut v: Vec<char> = Vec::new();
    v.push('.');
    v.push('m');
    v.push('u');
    v.push('s');
    v.push('i');
    v.push('c');
    v.push('_');
    v.push('q');
    v.push('u');
    v.push('e');
    v.push('u');
    v.push('e');
    proof {
        assert(v@ =~= key_suffix());
    }
    v
}

/// Matches one store key against the queue naming convention.  Returns the
/// key with its captured identifier exactly when the whole key matches.
pub fn match_queue_key(s: &str) -> (r: Option<QueueKey>)
    ensures
        r is Some <==> is_queue_key(s@),
        r matches Some(k) ==> k.full_key@ == s@ && k.extracted_id@ == id_of(s@),
{
    let v = chars_of(s);
    let n = v.len();
    if n < 22 {
        return None;
    }
    let pre = key_prefix_chars();
    let mut i: usize = 0;
    while i < 9
        invariant
            v@ == s@,
            pre@ == key_prefix(),
            n == s@.len(),
            22 <= n <= usize::MAX,
            i <= 9,
            forall|j: int| 0 <= j < i ==> s@[j] == key_prefix()[j],
        decreases 9 - i,
    {
        if v[i] != pre[i] {
            proof {
                assert(s@.subrange(0, 9)[i as int] == s@[i as int]);
            }
            return None;
        }
        i += 1;
    }
    proof {
        assert(s@.subrange(0, 9) =~= key_prefix());
    }
    let suf = key_suffix_chars();
    let mut j: usize = 0;
    while j < 12
        invariant
            v@ == s@,
            suf@ == key_suffix(),
            n == s@.len(),
            22 <= n <= usize::MAX,
            j <= 12,
            forall|k: int| 0 <= k < j ==> s@[n - 12 + k] == key_suffix()[k],
        decreases 12 - j,
    {
        if v[n - 12 + j] != suf[j] {
            proof {
                assert(s@.subrange(n - 12, n as int)[j as int] == s@[n - 12 + j]);
            }
            return None;
        }
        j += 1;
    }
    proof {
        assert(s@.subrange(n - 12, n as int) =~= key_suffix());
    }
    let mut k: usize = 9;
    while k < n - 12
        invariant
            v@ == s@,
            n == s@.len(),
            22 <= n <= usize::MAX,
            9 <= k <= n - 12,
            forall|m: int| 9 <= m < k ==> is_digit(#[trigger] s@[m]),
        decreases n - 12 - k,
    {
        if !digit(v[k]) {
            return None;
        }
        k += 1;
    }
    let id = s.substring_char(9, n - 12);
    Some(QueueKey { full_key: s.to_owned(), extracted_id: id.to_owned() })
}

/// The queue keys among `keys`, in encounter order, each paired with the
/// identifier captured from it.
pub open spec fn discovered(keys: Seq<Seq<char>>) -> Seq<(Seq<char>, Seq<char>)>
    decreases keys.len(),
{
    if keys.len() == 0 {
        Seq::empty()
    } else {
        let rest = discovered(keys.drop_last());
        if is_queue_key(keys.last()) {
            rest.push((keys.last(), id_of(keys.last())))
        } else {
            rest
        }
    }
}

/// Walks the scanned keyspace in encounter order and keeps exactly the
/// keys that match the queue naming convention, each with its captured
/// identifier.
pub fn discover_queue_keys(keys: &Vec<String>) -> (r: Vec<QueueKey>)
    ensures
        r@.map_values(|q: QueueKey| (q.full_key@, q.extracted_id@)) == discovered(
            keys.deep_view(),
        ),
        forall|i: int| 0 <= i < r@.len() ==> (#[trigger] r@[i]).wf(),
{
    let ghost ks: Seq<Seq<char>> = keys.deep_view();
    let mut r: Vec<QueueKey> = Vec::new();
    let mut i: usize = 0;
    while i < keys.len()
        invariant
            i <= keys.len(),
            ks == keys.deep_view(),
            ks.len() == keys@.len(),
            forall|j: int| 0 <= j < keys@.len() ==> ks[j] == #[trigger] keys@[j]@,
            r@.map_values(|q: QueueKey| (q.full_key@, q.extracted_id@)) == discovered(
                ks.subrange(0, i as int),
            ),
            forall|j: int| 0 <= j < r@.len() ==> (#[trigger] r@[j]).wf(),
        decreases keys.len() - i,
    {
        let ghost prev = r@;
        match match_queue_key(keys[i].as_str()) {
            Some(q) => {
                r.push(q);
            },
            None => {},
        }
        proof {
            let sub1 = ks.subrange(0, i as int + 1);
            assert(sub1.drop_last() =~= ks.subrange(0, i as int));
            assert(sub1.last() == ks[i as int]);
            if is_queue_key(ks[i as int]) {
                assert(r@.map_values(|q: QueueKey| (q.full_key@, q.extracted_id@)) =~= prev
                    .map_values(|q: QueueKey| (q.full_key@, q.extracted_id@)).push(
                    (ks[i as int], id_of(ks[i as int])),
                ));
            }
        }
        i += 1;
    }
    proof {
        assert(ks.subrange(0, keys@.len() as int) =~= ks);
    }
    r
}

/// Law: a key stands in the discovery result if and only if it occurs in
/// the scanned keyspace and fully matches `cardinal.<digits>.music_queue`;
/// and every result pair is a matching key with exactly its digit run.
pub proof fn lemma_discovered_iff(keys: Seq<Seq<char>>, s: Seq<char>)
    ensures
        (exists|i: int|
            0 <= i < discovered(keys).len() && (#[trigger] discovered(keys)[i]).0 == s) <==> (
        keys.contains(s) && is_queue_key(s)),
        forall|i: int|
            0 <= i < discovered(keys).len() ==> {
                let p = #[trigger] discovered(keys)[i];
                is_queue_key(p.0) && p.1 == id_of(p.0)
            },
    decreases keys.len(),
{
    if keys.len() == 0 {
        assert(!keys.contains(s));
    } else {
        lemma_discovered_iff(keys.drop_last(), s);
        let rest = discovered(keys.drop_last());
        assert(keys.contains(s) <==> keys.drop_last().contains(s) || keys.last() == s) by {
            if keys.contains(s) {
                let i = choose|i: int| 0 <= i < keys.len() && keys[i] == s;
                if i < keys.len() - 1 {
                    assert(keys.drop_last()[i] == s);
                }
            }
            if keys.drop_last().contains(s) {
                let i = choose|i: int|
                    0 <= i < keys.drop_last().len() && keys.drop_last()[i] == s;
                assert(keys[i] == s);
            }
        }
        if is_queue_key(keys.last()) {
            let d = discovered(keys);
            assert(d == rest.push((keys.last(), id_of(keys.last()))));
            if keys.contains(s) && is_queue_key(s) {
                if keys.last() == s {
                    assert(d[d.len() - 1].0 == s);
                } else {
                    let i = choose|i: int| 0 <= i < rest.len() && (#[trigger] rest[i]).0 == s;
                    assert(d[i].0 == s);
                }
            }
            if exists|i: int| 0 <= i < d.len() && (#[trigger] d[i]).0 == s {
                let i = choose|i: int| 0 <= i < d.len() && (#[trigger] d[i]).0 == s;
                if i < rest.len() {
                    assert(rest[i].0 == s);
                }
            }
        } else {
            if keys.contains(s) && is_queue_key(s) {
                assert(keys.drop_last().contains(s));
            }
        }
    }
}

/// Law: discovery over an empty keyspace yields the empty sequence.
pub proof fn lemma_discovered_empty()
    ensures
        discovered(Seq::<Seq<char>>::empty()) == Seq::<(Seq<char>, Seq<char>)>::empty(),
{
}

} // verus!

//! Interactive selection: trimming the one line of operator input,
//! parsing it as a base-10 signed integer, validating it against the
//! number of discovered queues, and resolving it to a store key.  The
//! menu text shown before the prompt is built here as well.

use crate::keys::QueueKey;
use crate::text::all_digits;
use crate::text::chars_of;
use crate::text::dec_digits;
use crate::text::digit;
use crate::text::digit_val;
use crate::text::digits_val;
use crate::text::is_ws;
use crate::text::lemma_digits_val_nonneg;
use crate::text::u64_dec_string;
use crate::text::ws;
use vstd::prelude::*;
use vstd::string::StringExecFns;

verus! {

/// `s` with ASCII whitespace removed from both ends.
pub open spec fn trim_spec(s: Seq<char>) -> Seq<char>
    decreases s.len(),
{
    if s.len() > 0 && is_ws(s[0]) {
        trim_spec(s.drop_first())
    } else if s.len() > 0 && is_ws(s.last()) {
        trim_spec(s.drop_last())
    } else {
        s
    }
}

/// The trimmed text is the middle part that remains once every leading
/// and every trailing whitespace character is cut away.
proof fn lemma_trim_subrange(s: Seq<char>, lo: int, hi: int)
    requires
        0 <= lo <= hi <= s.len(),
        forall|i: int| 0 <= i < lo ==> is_ws(#[trigger] s[i]),
        forall|i: int| hi <= i < s.len() ==> is_ws(#[trigger] s[i]),
        lo < hi ==> !is_ws(s[lo]) && !is_ws(s[hi - 1]),
    ensures
        trim_spec(s) == s.subrange(lo, hi),
    decreases s.len(),
{
    if s.len() == 0 {
        assert(trim_spec(s) =~= s.subrange(lo, hi));
    } else if is_ws(s[0]) {
        if lo == hi {
            assert(forall|i: int| 0 <= i < s.len() ==> is_ws(#[trigger] s[i]));
            let d = s.drop_first();
            assert(forall|i: int| 0 <= i < d.len() ==> is_ws(#[trigger] d[i]));
            lemma_trim_subrange(d, 0, 0);
            assert(trim_spec(s) =~= s.subrange(lo, hi));
        } else {
            assert(lo > 0);
            let d = s.drop_first();
            assert(forall|i: int| 0 <= i < lo - 1 ==> is_ws(#[trigger] d[i]));
            assert(forall|i: int| hi - 1 <= i < d.len() ==> is_ws(#[trigger] d[i]));
            lemma_trim_subrange(d, lo - 1, hi - 1);
            assert(d.subrange(lo - 1, hi - 1) =~= s.subrange(lo, hi));
        }
    } else if is_ws(s.last()) {
        assert(lo == 0) by {
            if lo > 0 {
                assert(is_ws(s[0]));
            }
        }
        assert(hi < s.len()) by {
            if hi == s.len() {
                if lo < hi {
                    assert(!is_ws(s[hi - 1]));
                } else {
                    assert(is_ws(s[0]));
                }
            }
        }
        let d = s.drop_last();
        assert(forall|i: int| hi <= i < d.len() ==> is_ws(#[trigger] d[i]));
        lemma_trim_subrange(d, lo, hi);
        assert(d.subrange(lo, hi) =~= s.subrange(lo, hi));
    } else {
        assert(lo == 0) by {
            if lo > 0 {
                assert(is_ws(s[0]));
            }
        }
        assert(hi == s.len()) by {
            if hi < s.len() {
                assert(is_ws(s.last()));
            }
        }
        assert(trim_spec(s) =~= s.subrange(lo, hi));
    }
}

/// Trims ASCII whitespace from both ends of `v`.
fn trim_chars(v: &Vec<char>) -> (r: Vec<char>)
    ensures
        r@ == trim_spec(v@),
{
    let n = v.len();
    let mut lo: usize = 0;
    while lo < n && ws(v[lo])
        invariant
            n == v@.len(),
            lo <= n,
            forall|i: int| 0 <= i < lo ==> is_ws(#[trigger] v@[i]),
        decreases n - lo,
    {
        lo += 1;
    }
    let mut hi: usize = n;
    while hi > lo && ws(v[hi - 1])
        invariant
            n == v@.len(),
            lo <= hi <= n,
            forall|i: int| hi <= i < n ==> is_ws(#[trigger] v@[i]),
        decreases hi,
    {
        hi -= 1;
    }
    proof {
        lemma_trim_subrange(v@, lo as int, hi as int);
    }
    let mut r: Vec<char> = Vec::new();
    let mut i: usize = lo;
    while i < hi
        invariant
            lo <= i <= hi <= v@.len(),
            r@ =~= v@.subrange(lo as int, i as int),
        decreases hi - i,
    {
        r.push(v[i]);
        proof {
            assert(r@ =~= v@.subrange(lo as int, i as int + 1));
        }
        i += 1;
    }
    r
}

/// The base-10 signed integer denoted by `s`: an optional sign followed
/// by at least one ASCII digit, and nothing else.
pub open spec fn parse_int_spec(s: Seq<char>) -> Option<int> {
    if s.len() == 0 {
        None
    } else if s[0] == '-' || s[0] == '+' {
        let d = s.subrange(1, s.len() as int);
        if d.len() > 0 && all_digits(d) {
            if s[0] == '-' {
                Some(-digits_val(d))
            } else {
                Some(digits_val(d))
            }
        } else {
            None
        }
    } else if all_digits(s) {
        Some(digits_val(s))
    } else {
        None
    }
}

/// Resolves one line of operator input against the discovered queues.
///
/// The line is trimmed of surrounding ASCII whitespace (which also
/// removes the trailing line terminator) and parsed as a base-10 signed
/// integer; a selection `n` is accepted exactly when `1 <= n <= len`,
/// and then names the `(n-1)`-th discovered key.  Any other input,
/// including on an empty queue list, yields no selection.
pub fn select_queue(queues: &Vec<QueueKey>, line: &str) -> (r: Option<String>)
    ensures
        ({
            let t = trim_spec(line@);
            match parse_int_spec(t) {
                Some(n) => if 1 <= n && n <= queues@.len() {
                    r matches Some(key) && key@ == queues@[n - 1].full_key@
                } else {
                    r is None
                },
                None => r is None,
            }
        }),
{
    let chars = chars_of(line);
    let t = trim_chars(&chars);
    let m = t.len();
    if m == 0 {
        return None;
    }
    let c0 = t[0];
    let neg = c0 == '-';
    let start: usize = if c0 == '-' || c0 == '+' {
        1
    } else {
        0
    };
    if m == start {
        return None;
    }
    let len = queues.len();
    let mut val: usize = 0;
    let mut exceeded = false;
    let mut i = start;
    while i < m
        invariant
            t@ == trim_spec(line@),
            m == t@.len(),
            start <= i <= m,
            start <= 1,
            start < m,
            (start == 1) <==> (t@[0] == '-' || t@[0] == '+'),
            neg <==> (m > 0 && t@[0] == '-'),
            len == queues@.len(),
            forall|j: int| start <= j < i ==> crate::text::is_digit(#[trigger] t@[j]),
            !exceeded ==> val == digits_val(t@.subrange(start as int, i as int)) && val <= len,
            exceeded ==> digits_val(t@.subrange(start as int, i as int)) > len,
        decreases m - i,
    {
        let c = t[i];
        if !digit(c) {
            proof {
                if start == 1 {
                    let d = t@.subrange(1, t@.len() as int);
                    assert(!crate::text::is_digit(d[i - 1]));
                    assert(!all_digits(d));
                    assert(parse_int_spec(t@) is None);
                } else {
                    assert(!crate::text::is_digit(t@[i as int]));
                    assert(!all_digits(t@));
                    assert(parse_int_spec(t@) is None);
                }
            }
            return None;
        }
        let dv: u32 = (c as u32) - ('0' as u32);
        let ghost sub = t@.subrange(start as int, i as int);
        let ghost sub1 = t@.subrange(start as int, i as int + 1);
        proof {
            assert(sub1.drop_last() =~= sub);
            assert(sub1.last() == t@[i as int]);
            assert(digits_val(sub1) == digits_val(sub) * 10 + digit_val(t@[i as int]));
            lemma_digits_val_nonneg(sub);
            assert(dv as int == digit_val(t@[i as int]));
        }
        if exceeded {
            proof {
                assert(digits_val(sub) * 10 >= digits_val(sub)) by (nonlinear_arith)
                    requires
                        digits_val(sub) >= 0,
                ;
            }
        } else {
            if val > len / 10 {
                proof {
                    vstd::arithmetic::div_mod::lemma_fundamental_div_mod(len as int, 10);
                    assert(val * 10 >= (len / 10 + 1) * 10) by (nonlinear_arith)
                        requires
                            val >= len / 10 + 1,
                    ;
                    assert(digits_val(sub1) > len);
                }
                exceeded = true;
            } else {
                proof {
                    vstd::arithmetic::div_mod::lemma_fundamental_div_mod(len as int, 10);
                    assert(val * 10 <= (len / 10) * 10) by (nonlinear_arith)
                        requires
                            val <= len / 10,
                    ;
                }
                let v10 = val * 10;
                if (dv as usize) > len - v10 {
                    exceeded = true;
                } else {
                    val = v10 + (dv as usize);
                }
            }
        }
        i += 1;
    }
    proof {
        if start == 1 {
            let d = t@.subrange(1, m as int);
            assert(all_digits(d));
            assert(d.len() > 0);
            lemma_digits_val_nonneg(d);
        } else {
            assert(t@.subrange(0, m as int) =~= t@);
            assert(all_digits(t@));
        }
    }
    if neg {
        return None;
    }
    if exceeded {
        return None;
    }
    if val < 1 {
        return None;
    }
    Some(queues[val - 1].full_key.clone())
}


/// The numeric value of the selection line, for error reporting: the
/// trimmed line's integer value whenever it has one that fits a signed
/// 64-bit word.  `select_queue` alone decides whether it selects.
pub fn parse_selection(line: &str) -> (r: Option<i64>)
    ensures
        ({
            let t = trim_spec(line@);
            match parse_int_spec(t) {
                Some(n) => if i64::MIN <= n <= i64::MAX {
                    r matches Some(v) && v as int == n
                } else {
                    r is None
                },
                None => r is None,
            }
        }),
{
    let chars = chars_of(line);
    let t = trim_chars(&chars);
    let m = t.len();
    if m == 0 {
        return None;
    }
    let c0 = t[0];
    let neg = c0 == '-';
    let start: usize = if c0 == '-' || c0 == '+' {
        1
    } else {
        0
    };
    if m == start {
        return None;
    }
    let mut acc: u128 = 0;
    let mut big = false;
    let mut i = start;
    while i < m
        invariant
            t@ == trim_spec(line@),
            m == t@.len(),
            start <= i <= m,
            start <= 1,
            start < m,
            (start == 1) <==> (t@[0] == '-' || t@[0] == '+'),
            neg <==> (m > 0 && t@[0] == '-'),
            forall|j: int| start <= j < i ==> crate::text::is_digit(#[trigger] t@[j]),
            !big ==> acc as int == digits_val(t@.subrange(start as int, i as int)) && acc as int
                <= 0x8000_0000_0000_0000,
            big ==> digits_val(t@.subrange(start as int, i as int)) > 0x8000_0000_0000_0000,
        decreases m - i,
    {
        let c = t[i];
        if !digit(c) {
            proof {
                if start == 1 {
                    let d = t@.subrange(1, m as int);
                    assert(!crate::text::is_digit(d[i - 1]));
                    assert(!all_digits(d));
                } else {
                    assert(!all_digits(t@));
                }
            }
            return None;
        }
        let dv: u32 = (c as u32) - ('0' as u32);
        let ghost sub = t@.subrange(start as int, i as int);
        let ghost sub1 = t@.subrange(start as int, i as int + 1);
        proof {
            assert(sub1.drop_last() =~= sub);
            assert(sub1.last() == t@[i as int]);
            assert(digits_val(sub1) == digits_val(sub) * 10 + digit_val(t@[i as int]));
            lemma_digits_val_nonneg(sub);
            assert(dv as int == digit_val(t@[i as int]));
        }
        if big {
            proof {
                assert(digits_val(sub) * 10 >= digits_val(sub)) by (nonlinear_arith)
                    requires
                        digits_val(sub) >= 0,
                ;
            }
        } else {
            let nv = acc * 10 + (dv as u128);
            if nv > 0x8000_0000_0000_0000u128 {
                big = true;
            } else {
                acc = nv;
            }
        }
        i += 1;
    }
    proof {
        if start == 1 {
            let d = t@.subrange(1, m as int);
            assert(all_digits(d));
            lemma_digits_val_nonneg(d);
        } else {
            assert(t@.subrange(0, m as int) =~= t@);
            assert(all_digits(t@));
        }
    }
    if big {
        return None;
    }
    if neg {
        if acc == 0x8000_0000_0000_0000u128 {
            return Some(i64::MIN);
        }
        return Some(-(acc as i64));
    }
    if acc > 0x7fff_ffff_ffff_ffffu128 {
        return None;
    }
    Some(acc as i64)
}

/// The menu line for 1-based position `i`: the index, a colon and a
/// space, then the queue's captured identifier.
pub open spec fn menu_line(i: nat, id: Seq<char>) -> Seq<char> {
    dec_digits(i) + seq![':', ' '] + id
}

/// Builds the selection menu, one line per discovered queue, numbered
/// from 1 in encounter order.
pub fn menu_lines(queues: &Vec<QueueKey>) -> (r: Vec<String>)
    ensures
        r@.len() == queues@.len(),
        forall|i: int|
            0 <= i < queues@.len() ==> (#[trigger] r@[i])@ == menu_line(
                (i + 1) as nat,
                queues@[i].extracted_id@,
            ),
{
    let mut r: Vec<String> = Vec::new();
    let mut i: usize = 0;
    while i < queues.len()
        invariant
            i <= queues@.len(),
            r@.len() == i,
            forall|j: int|
                0 <= j < i ==> (#[trigger] r@[j])@ == menu_line(
                    (j + 1) as nat,
                    queues@[j].extracted_id@,
                ),
        decreases queues.len() - i,
    {
        let mut line = u64_dec_string((i + 1) as u64);
        line.append(": ");
        let line2 = line.concat(queues[i].extracted_id.as_str());
        proof {
            reveal_strlit(": ");
            assert(": "@ =~= seq![':', ' ']);
            assert(line2@ =~= menu_line((i + 1) as nat, queues@[i as int].extracted_id@));
        }
        r.push(line2);
        i += 1;
    }
    r
}

} // verus!

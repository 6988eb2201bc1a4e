//! A verified reader for a JSON subset, enough to judge the auth body:
//! objects, arrays, plain strings, loose number tokens and the three
//! literals, with insignificant whitespace everywhere the grammar allows
//! it. Two deliberate restrictions, stated here once: string escapes are
//! not supported (a string holding `\` does not parse), and a number is
//! read loosely as a run of number characters.

use vstd::prelude::*;
use crate::bytes::first_at;
use crate::bytes::lemma_first_at;

verus! {

/// JSON insignificant whitespace.
pub open spec fn is_ws(b: u8) -> bool {
    b == 0x20 || b == 0x09 || b == 0x0a || b == 0x0d
}

/// A byte that may stand inside a string literal of this reader: anything
/// but a quote, a backslash or a control byte.
pub open spec fn string_byte(b: u8) -> bool {
    b >= 0x20 && b != 0x22 && b != 0x5c
}

/// A byte that may stand inside a number token.
pub open spec fn number_byte(b: u8) -> bool {
    (0x30 <= b && b <= 0x39) || b == 0x2b || b == 0x2d || b == 0x2e || b == 0x65 || b == 0x45
}

/// `s` without its leading whitespace.
pub open spec fn skip_ws(s: Seq<u8>) -> Seq<u8>
    decreases s.len(),
{
    if s.len() > 0 && is_ws(s[0]) {
        skip_ws(s.drop_first())
    } else {
        s
    }
}

/// Skipping whitespace never grows the input.
pub proof fn lemma_skip_ws_len(s: Seq<u8>)
    ensures
        skip_ws(s).len() <= s.len(),
    decreases s.len(),
{
    if s.len() > 0 && is_ws(s[0]) {
        lemma_skip_ws_len(s.drop_first());
    }
}

/// Where the whitespace ends: past `k` leading whitespace bytes with a
/// non-whitespace byte (or the end) at `k`, the skip lands on `s.skip(k)`.
pub(crate) proof fn lemma_skip_ws_at(s: Seq<u8>, k: int)
    requires
        0 <= k <= s.len(),
        forall|j: int| 0 <= j < k ==> is_ws(#[trigger] s[j]),
        k < s.len() ==> !is_ws(s[k]),
    ensures
        skip_ws(s) == s.skip(k),
    decreases s.len(),
{
    if k == 0 {
        assert(s.skip(0) =~= s);
    } else {
        assert(is_ws(s[0]));
        assert forall|j: int| 0 <= j < k - 1 implies is_ws(#[trigger] s.drop_first()[j]) by {
            assert(s.drop_first()[j] == s[j + 1]);
        }
        lemma_skip_ws_at(s.drop_first(), k - 1);
        assert(s.drop_first().skip(k - 1) =~= s.skip(k));
    }
}

/// A string literal at the very front: its contents and what follows the
/// closing quote.
pub open spec fn parse_string(s: Seq<u8>) -> Option<(Seq<u8>, Seq<u8>)> {
    if s.len() >= 1 && s[0] == 0x22 {
        let tail = s.drop_first();
        let q = first_at(tail, 0x22);
        if q < tail.len() && (forall|j: int| 0 <= j < q ==> string_byte(#[trigger] tail[j])) {
            Some((tail.take(q as int), tail.skip(q as int + 1)))
        } else {
            None
        }
    } else {
        None
    }
}

/// A parsed string consumed its two quotes at least.
pub proof fn lemma_parse_string_len(s: Seq<u8>)
    ensures
        parse_string(s) matches Some(kv) ==> kv.1.len() + 2 <= s.len(),
{
}

/// How many number bytes the input starts with.
pub open spec fn number_len(s: Seq<u8>) -> nat
    decreases s.len(),
{
    if s.len() > 0 && number_byte(s[0]) {
        1 + number_len(s.drop_first())
    } else {
        0
    }
}

/// `number_len` answers the position of the first non-number byte.
pub(crate) proof fn lemma_number_len_at(s: Seq<u8>, k: int)
    requires
        0 <= k <= s.len(),
        forall|j: int| 0 <= j < k ==> number_byte(#[trigger] s[j]),
        k < s.len() ==> !number_byte(s[k]),
    ensures
        number_len(s) == k,
    decreases s.len(),
{
    if k == 0 {
    } else {
        assert forall|j: int| 0 <= j < k - 1 implies number_byte(
            #[trigger] s.drop_first()[j],
        ) by {
            assert(s.drop_first()[j] == s[j + 1]);
        }
        lemma_number_len_at(s.drop_first(), k - 1);
    }
}

/// The literal `true`.
pub open spec fn lit_true() -> Seq<u8> {
    seq![0x74u8, 0x72u8, 0x75u8, 0x65u8]
}

/// The literal `false`.
pub open spec fn lit_false() -> Seq<u8> {
    seq![0x66u8, 0x61u8, 0x6cu8, 0x73u8, 0x65u8]
}

/// The literal `null`.
pub open spec fn lit_null() -> Seq<u8> {
    seq![0x6eu8, 0x75u8, 0x6cu8, 0x6cu8]
}

/// Advance past leading whitespace.
pub(crate) fn ws_to(b: &[u8], pos: usize) -> (np: usize)
    requires
        pos <= b@.len(),
    ensures
        pos <= np <= b@.len(),
        skip_ws(b@.skip(pos as int)) == b@.skip(np as int),
{
    let mut i: usize = pos;
    while i < b.len() && (b[i] == 0x20 || b[i] == 0x09 || b[i] == 0x0a || b[i] == 0x0d)
        invariant
            pos <= i <= b@.len(),
            forall|j: int| pos <= j < i ==> is_ws(#[trigger] b@[j]),
        decreases b@.len() - i,
    {
        i += 1;
    }
    proof {
        let s = b@.skip(pos as int);
        assert forall|j: int| 0 <= j < i - pos implies is_ws(#[trigger] s[j]) by {
            assert(s[j] == b@[pos + j]);
        }
        if i < b.len() {
            assert(s[i - pos] == b@[i as int]);
        }
        lemma_skip_ws_at(s, i - pos);
        assert(s.skip(i - pos) =~= b@.skip(i as int));
    }
    i
}

/// Read a string literal at `pos`, answering its contents and the position
/// past the closing quote.
pub(crate) fn string_exec(b: &[u8], pos: usize) -> (r: Option<(Vec<u8>, usize)>)
    requires
        pos <= b@.len(),
    ensures
        match r {
            Some(cp) => {
                &&& parse_string(b@.skip(pos as int)) == Some(
                    (cp.0@, b@.skip(cp.1 as int)),
                )
                &&& pos + 2 <= cp.1 <= b@.len()
            },
            None => parse_string(b@.skip(pos as int)) is None,
        },
{
    let ghost s = b@.skip(pos as int);
    if pos >= b.len() || b[pos] != 0x22 {
        return None;
    }
    let ghost tail = s.drop_first();
    proof {
        assert(s[0] == b@[pos as int]);
        assert(tail =~= b@.skip(pos + 1));
    }
    let mut i: usize = pos + 1;
    while i < b.len() && b[i] != 0x22 && b[i] >= 0x20 && b[i] != 0x5c
        invariant
            pos + 1 <= i <= b@.len(),
            tail == b@.skip(pos + 1),
            forall|j: int| 0 <= j < i - pos - 1 ==> string_byte(#[trigger] tail[j]),
            forall|j: int| 0 <= j < i - pos - 1 ==> tail[j] != 0x22,
        decreases b@.len() - i,
    {
        proof {
            assert(tail[i - pos - 1] == b@[i as int]);
        }
        i += 1;
    }
    if i >= b.len() {
        // no closing quote at all
        proof {
            lemma_first_at(tail, 0x22, tail.len() as int);
        }
        return None;
    }
    if b[i] != 0x22 {
        // an unsupported byte before any closing quote
        proof {
            assert(tail[i - pos - 1] == b@[i as int]);
            assert(!string_byte(tail[i - pos - 1]));
            let q = first_at(tail, 0x22);
            lemma_first_at_props(tail, 0x22);
            if q < tail.len() {
                assert(tail[q as int] == 0x22);
                assert(q > i - pos - 1);
                assert(!string_byte(tail[i - pos - 1]));
            }
        }
        return None;
    }
    proof {
        assert(tail[i - pos - 1] == b@[i as int]);
        lemma_first_at(tail, 0x22, i - pos - 1);
    }
    let content = crate::bytes::copy_bytes(&b[pos + 1..i]);
    proof {
        assert(content@ =~= tail.take(i - pos - 1));
        assert(tail.skip(i - pos) =~= b@.skip(i + 1));
    }
    Some((content, i + 1))
}

/// What `first_at` found really is the first separator.
pub(crate) proof fn lemma_first_at_props(s: Seq<u8>, sep: u8)
    ensures
        first_at(s, sep) <= s.len(),
        first_at(s, sep) < s.len() ==> s[first_at(s, sep) as int] == sep,
        forall|j: int| 0 <= j < first_at(s, sep) ==> s[j] != sep,
    decreases s.len(),
{
    if s.len() > 0 && s[0] != sep {
        lemma_first_at_props(s.drop_first(), sep);
        assert forall|j: int| 0 <= j < first_at(s, sep) implies s[j] != sep by {
            if j > 0 {
                assert(s.drop_first()[j - 1] == s[j]);
            }
        }
    }
}

/// Any JSON value at the front, leading whitespace allowed: what follows
/// it, or nothing if no value of this subset starts here.
pub open spec fn parse_value(s: Seq<u8>) -> Option<Seq<u8>>
    decreases s.len(), 0int,
    via parse_value_decreases
{
    let t = skip_ws(s);
    if t.len() == 0 {
        None
    } else if t[0] == 0x22 {
        match parse_string(t) {
            Some(kv) => Some(kv.1),
            None => None,
        }
    } else if t[0] == 0x7b {
        parse_members(t.drop_first())
    } else if t[0] == 0x5b {
        parse_elements(t.drop_first())
    } else if number_len(t) > 0 {
        Some(t.skip(number_len(t) as int))
    } else if t.len() >= 4 && t.take(4) == lit_true() {
        Some(t.skip(4))
    } else if t.len() >= 5 && t.take(5) == lit_false() {
        Some(t.skip(5))
    } else if t.len() >= 4 && t.take(4) == lit_null() {
        Some(t.skip(4))
    } else {
        None
    }
}

/// The members of an object, its `{` already consumed: whitespace, then
/// either the closing `}` or a member list.
pub open spec fn parse_members(s: Seq<u8>) -> Option<Seq<u8>>
    decreases s.len(), 2int,
    via parse_members_decreases
{
    let t = skip_ws(s);
    if t.len() == 0 {
        None
    } else if t[0] == 0x7d {
        Some(t.drop_first())
    } else {
        parse_member_list(t)
    }
}

/// One or more `"key": value` members and the closing `}`. The input
/// starts at a member's opening quote.
pub open spec fn parse_member_list(s: Seq<u8>) -> Option<Seq<u8>>
    decreases s.len(), 1int,
    via parse_member_list_decreases
{
    match parse_string(s) {
        None => None,
        Some(kv) => {
            let ak = skip_ws(kv.1);
            if ak.len() == 0 || ak[0] != 0x3a {
                None
            } else {
                match parse_value(ak.drop_first()) {
                    None => None,
                    Some(rest) => if rest.len() >= s.len() {
                        None  // a value always consumes input; this arm is never taken
                    } else {
                        let u = skip_ws(rest);
                        if u.len() == 0 {
                            None
                        } else if u[0] == 0x2c {
                            parse_member_list(skip_ws(u.drop_first()))
                        } else if u[0] == 0x7d {
                            Some(u.drop_first())
                        } else {
                            None
                        }
                    },
                }
            }
        },
    }
}

/// The elements of an array, its `[` already consumed.
pub open spec fn parse_elements(s: Seq<u8>) -> Option<Seq<u8>>
    decreases s.len(), 2int,
    via parse_elements_decreases
{
    let t = skip_ws(s);
    if t.len() == 0 {
        None
    } else if t[0] == 0x5d {
        Some(t.drop_first())
    } else {
        parse_element_list(t)
    }
}

/// One or more values and the closing `]`.
pub open spec fn parse_element_list(s: Seq<u8>) -> Option<Seq<u8>>
    decreases s.len(), 1int,
    via parse_element_list_decreases
{
    match parse_value(s) {
        None => None,
        Some(rest) => if rest.len() >= s.len() {
            None  // a value always consumes input; this arm is never taken
        } else {
            let u = skip_ws(rest);
            if u.len() == 0 {
                None
            } else if u[0] == 0x2c {
                parse_element_list(skip_ws(u.drop_first()))
            } else if u[0] == 0x5d {
                Some(u.drop_first())
            } else {
                None
            }
        },
    }
}

#[via_fn]
proof fn parse_value_decreases(s: Seq<u8>) {
    assert forall|x: Seq<u8>| (#[trigger] skip_ws(x)).len() <= x.len() by {
        lemma_skip_ws_len(x);
    }
}

#[via_fn]
proof fn parse_members_decreases(s: Seq<u8>) {
    assert forall|x: Seq<u8>| (#[trigger] skip_ws(x)).len() <= x.len() by {
        lemma_skip_ws_len(x);
    }
}

#[via_fn]
proof fn parse_member_list_decreases(s: Seq<u8>) {
    assert forall|x: Seq<u8>| (#[trigger] skip_ws(x)).len() <= x.len() by {
        lemma_skip_ws_len(x);
    }
    assert forall|x: Seq<u8>| #[trigger] parse_string(x) matches Some(kv) ==> kv.1.len() + 2
        <= x.len() by {
        lemma_parse_string_len(x);
    }
}

#[via_fn]
proof fn parse_elements_decreases(s: Seq<u8>) {
    assert forall|x: Seq<u8>| (#[trigger] skip_ws(x)).len() <= x.len() by {
        lemma_skip_ws_len(x);
    }
}

#[via_fn]
proof fn parse_element_list_decreases(s: Seq<u8>) {
    assert forall|x: Seq<u8>| (#[trigger] skip_ws(x)).len() <= x.len() by {
        lemma_skip_ws_len(x);
    }
}

/// Read any JSON value at `pos` (leading whitespace allowed), answering
/// the position just past it.
pub(crate) fn value_exec(b: &[u8], pos: usize) -> (r: Option<usize>)
    requires
        pos <= b@.len(),
    ensures
        match r {
            Some(np) => parse_value(b@.skip(pos as int)) == Some(b@.skip(np as int)) && pos < np
                <= b@.len(),
            None => parse_value(b@.skip(pos as int)) is None,
        },
    decreases b@.len() - pos, 0int,
{
    let ghost s = b@.skip(pos as int);
    let t0 = ws_to(b, pos);
    let ghost t = b@.skip(t0 as int);
    if t0 >= b.len() {
        return None;
    }
    let c = b[t0];
    proof {
        assert(t[0] == b@[t0 as int]);
    }
    if c == 0x22 {
        match string_exec(b, t0) {
            Some(cp) => Some(cp.1),
            None => None,
        }
    } else if c == 0x7b {
        proof {
            assert(t.drop_first() =~= b@.skip(t0 + 1));
        }
        members_exec(b, t0 + 1)
    } else if c == 0x5b {
        proof {
            assert(t.drop_first() =~= b@.skip(t0 + 1));
        }
        elements_exec(b, t0 + 1)
    } else {
        let mut i: usize = t0;
        while i < b.len() && ((0x30 <= b[i] && b[i] <= 0x39) || b[i] == 0x2b || b[i] == 0x2d
            || b[i] == 0x2e || b[i] == 0x65 || b[i] == 0x45)
            invariant
                t0 <= i <= b@.len(),
                t == b@.skip(t0 as int),
                forall|j: int| 0 <= j < i - t0 ==> number_byte(#[trigger] t[j]),
            decreases b@.len() - i,
        {
            proof {
                assert(t[i - t0] == b@[i as int]);
            }
            i += 1;
        }
        proof {
            if i < b.len() {
                assert(t[i - t0] == b@[i as int]);
            }
            lemma_number_len_at(t, i - t0);
        }
        if i > t0 {
            proof {
                assert(t.skip(i - t0) =~= b@.skip(i as int));
            }
            return Some(i);
        }
        // no number byte here; try the three literals
        if c == 0x74 && b.len() - t0 >= 4 && b[t0 + 1] == 0x72 && b[t0 + 2] == 0x75 && b[t0 + 3]
            == 0x65 {
            proof {
                assert(t[1] == b@[t0 + 1] && t[2] == b@[t0 + 2] && t[3] == b@[t0 + 3]);
                assert(t.take(4) =~= lit_true());
                assert(t.skip(4) =~= b@.skip(t0 + 4));
            }
            return Some(t0 + 4);
        }
        if c == 0x66 && b.len() - t0 >= 5 && b[t0 + 1] == 0x61 && b[t0 + 2] == 0x6c && b[t0 + 3]
            == 0x73 && b[t0 + 4] == 0x65 {
            proof {
                assert(t[1] == b@[t0 + 1] && t[2] == b@[t0 + 2] && t[3] == b@[t0 + 3] && t[4]
                    == b@[t0 + 4]);
                assert(t.take(5) =~= lit_false());
                assert(t.skip(5) =~= b@.skip(t0 + 5));
            }
            return Some(t0 + 5);
        }
        if c == 0x6e && b.len() - t0 >= 4 && b[t0 + 1] == 0x75 && b[t0 + 2] == 0x6c && b[t0 + 3]
            == 0x6c {
            proof {
                assert(t[1] == b@[t0 + 1] && t[2] == b@[t0 + 2] && t[3] == b@[t0 + 3]);
                assert(t.take(4) =~= lit_null());
                assert(t.skip(4) =~= b@.skip(t0 + 4));
            }
            return Some(t0 + 4);
        }
        proof {
            if t.len() >= 4 && t.take(4) == lit_true() {
                assert(t[0] == 0x74 && t[1] == 0x72 && t[2] == 0x75 && t[3] == 0x65) by {
                    assert(t.take(4)[0] == t[0] && t.take(4)[1] == t[1] && t.take(4)[2] == t[2]
                        && t.take(4)[3] == t[3]);
                }
                assert(b@[t0 + 1] == t[1] && b@[t0 + 2] == t[2] && b@[t0 + 3] == t[3]);
            }
            if t.len() >= 5 && t.take(5) == lit_false() {
                assert(t[0] == 0x66 && t[1] == 0x61 && t[2] == 0x6c && t[3] == 0x73 && t[4]
                    == 0x65) by {
                    assert(t.take(5)[0] == t[0] && t.take(5)[1] == t[1] && t.take(5)[2] == t[2]
                        && t.take(5)[3] == t[3] && t.take(5)[4] == t[4]);
                }
                assert(b@[t0 + 1] == t[1] && b@[t0 + 2] == t[2] && b@[t0 + 3] == t[3] && b@[t0
                    + 4] == t[4]);
            }
            if t.len() >= 4 && t.take(4) == lit_null() {
                assert(t[0] == 0x6e && t[1] == 0x75 && t[2] == 0x6c && t[3] == 0x6c) by {
                    assert(t.take(4)[0] == t[0] && t.take(4)[1] == t[1] && t.take(4)[2] == t[2]
                        && t.take(4)[3] == t[3]);
                }
                assert(b@[t0 + 1] == t[1] && b@[t0 + 2] == t[2] && b@[t0 + 3] == t[3]);
            }
        }
        None
    }
}

/// Read an object's members at `pos`, its `{` already consumed.
pub(crate) fn members_exec(b: &[u8], pos: usize) -> (r: Option<usize>)
    requires
        pos <= b@.len(),
    ensures
        match r {
            Some(np) => parse_members(b@.skip(pos as int)) == Some(b@.skip(np as int)) && pos
                < np <= b@.len(),
            None => parse_members(b@.skip(pos as int)) is None,
        },
    decreases b@.len() - pos, 2int,
{
    let t0 = ws_to(b, pos);
    let ghost t = b@.skip(t0 as int);
    if t0 >= b.len() {
        return None;
    }
    proof {
        assert(t[0] == b@[t0 as int]);
    }
    if b[t0] == 0x7d {
        proof {
            assert(t.drop_first() =~= b@.skip(t0 + 1));
        }
        return Some(t0 + 1);
    }
    member_list_exec(b, t0)
}

/// Read a member list at `pos`: the input stands at a member's opening
/// quote.
pub(crate) fn member_list_exec(b: &[u8], pos: usize) -> (r: Option<usize>)
    requires
        pos <= b@.len(),
    ensures
        match r {
            Some(np) => parse_member_list(b@.skip(pos as int)) == Some(b@.skip(np as int))
                && pos < np <= b@.len(),
            None => parse_member_list(b@.skip(pos as int)) is None,
        },
    decreases b@.len() - pos, 1int,
{
    let ghost s = b@.skip(pos as int);
    let key = match string_exec(b, pos) {
        Some(cp) => cp,
        None => {
            return None;
        },
    };
    let a0 = ws_to(b, key.1);
    let ghost ak = b@.skip(a0 as int);
    if a0 >= b.len() {
        return None;
    }
    proof {
        assert(ak[0] == b@[a0 as int]);
    }
    if b[a0] != 0x3a {
        return None;
    }
    proof {
        assert(ak.drop_first() =~= b@.skip(a0 + 1));
    }
    let vp = match value_exec(b, a0 + 1) {
        Some(vp) => vp,
        None => {
            return None;
        },
    };
    let u0 = ws_to(b, vp);
    let ghost u = b@.skip(u0 as int);
    if u0 >= b.len() {
        return None;
    }
    proof {
        assert(u[0] == b@[u0 as int]);
    }
    if b[u0] == 0x2c {
        proof {
            assert(u.drop_first() =~= b@.skip(u0 + 1));
        }
        let n0 = ws_to(b, u0 + 1);
        member_list_exec(b, n0)
    } else if b[u0] == 0x7d {
        proof {
            assert(u.drop_first() =~= b@.skip(u0 + 1));
        }
        Some(u0 + 1)
    } else {
        None
    }
}

/// Read an array's elements at `pos`, its `[` already consumed.
pub(crate) fn elements_exec(b: &[u8], pos: usize) -> (r: Option<usize>)
    requires
        pos <= b@.len(),
    ensures
        match r {
            Some(np) => parse_elements(b@.skip(pos as int)) == Some(b@.skip(np as int)) && pos
                < np <= b@.len(),
            None => parse_elements(b@.skip(pos as int)) is None,
        },
    decreases b@.len() - pos, 2int,
{
    let t0 = ws_to(b, pos);
    let ghost t = b@.skip(t0 as int);
    if t0 >= b.len() {
        return None;
    }
    proof {
        assert(t[0] == b@[t0 as int]);
    }
    if b[t0] == 0x5d {
        proof {
            assert(t.drop_first() =~= b@.skip(t0 + 1));
        }
        return Some(t0 + 1);
    }
    element_list_exec(b, t0)
}

/// Read an element list at `pos`: the input stands at a value.
pub(crate) fn element_list_exec(b: &[u8], pos: usize) -> (r: Option<usize>)
    requires
        pos <= b@.len(),
    ensures
        match r {
            Some(np) => parse_element_list(b@.skip(pos as int)) == Some(b@.skip(np as int))
                && pos < np <= b@.len(),
            None => parse_element_list(b@.skip(pos as int)) is None,
        },
    decreases b@.len() - pos, 1int,
{
    let ghost s = b@.skip(pos as int);
    let vp = match value_exec(b, pos) {
        Some(vp) => vp,
        None => {
            return None;
        },
    };
    let u0 = ws_to(b, vp);
    let ghost u = b@.skip(u0 as int);
    if u0 >= b.len() {
        return None;
    }
    proof {
        assert(u[0] == b@[u0 as int]);
    }
    if b[u0] == 0x2c {
        proof {
            assert(u.drop_first() =~= b@.skip(u0 + 1));
        }
        let n0 = ws_to(b, u0 + 1);
        element_list_exec(b, n0)
    } else if b[u0] == 0x5d {
        proof {
            assert(u.drop_first() =~= b@.skip(u0 + 1));
        }
        Some(u0 + 1)
    } else {
        None
    }
}

} // verus!

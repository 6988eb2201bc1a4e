//! The feed session: the subscribe control payload, the auth-response
//! shape, and the session state machine that drives one streaming session.
//!
//! The session itself performs no I/O. Whatever opens the connection feeds
//! it the auth status and body, the connect outcome and each inbound frame,
//! and sends the bytes it hands back.

use vstd::prelude::*;
use crate::bytes::append_bytes;
use crate::bytes::byte_views;
use crate::bytes::bytes_eq;
use crate::codec::parse_batch;
use crate::json::lemma_parse_string_len;
use crate::json::lemma_skip_ws_len;
use crate::json::parse_string;
use crate::json::parse_value;
use crate::json::skip_ws;
use crate::json::string_exec;
use crate::json::value_exec;
use crate::json::ws_to;
use crate::errors::FeedError;
use crate::evaluator::batch_eval;
use crate::evaluator::evaluate_batch;
use crate::registry::Registry;
use crate::registry::keys_of;
use crate::rules::AlertEvent;
use crate::rules::RuleStore;
use crate::rules::events_view;

verus! {

/// A byte string that can stand inside a JSON string literal untouched:
/// printable ASCII with no quote and no backslash.
pub open spec fn json_plain(s: Seq<u8>) -> bool {
    forall|i: int|
        0 <= i < s.len() ==> (0x20 <= #[trigger] s[i] <= 0x7e && s[i] != 0x22 && s[i] != 0x5c)
}

/// Whether every byte of `s` is JSON-plain.
fn is_json_plain(s: &[u8]) -> (r: bool)
    ensures
        r <==> json_plain(s@),
{
    let mut i: usize = 0;
    while i < s.len()
        invariant
            i <= s@.len(),
            forall|j: int|
                0 <= j < i ==> (0x20 <= #[trigger] s@[j] <= 0x7e && s@[j] != 0x22 && s@[j]
                    != 0x5c),
        decreases s@.len() - i,
    {
        let b = s[i];
        if b < 0x20 || b > 0x7e || b == 0x22 || b == 0x5c {
            return false;
        }
        i += 1;
    }
    true
}


/// Opening of the subscribe payload, up to the guid: `{"guid":"`.
pub open spec fn sub_prefix() -> Seq<u8> {
    seq![123u8, 34u8, 103u8, 117u8, 105u8, 100u8, 34u8, 58u8, 34u8]
}

/// Between guid and key list: `","method":"sub","data":{"mode":"ltpc","instrumentKeys":[`.
pub open spec fn sub_mid() -> Seq<u8> {
    seq![34u8, 44u8, 34u8, 109u8, 101u8, 116u8, 104u8, 111u8, 100u8, 34u8, 58u8, 34u8, 115u8, 117u8, 98u8, 34u8, 44u8, 34u8, 100u8, 97u8, 116u8, 97u8, 34u8, 58u8, 123u8, 34u8, 109u8, 111u8, 100u8, 101u8, 34u8, 58u8, 34u8, 108u8, 116u8, 112u8, 99u8, 34u8, 44u8, 34u8, 105u8, 110u8, 115u8, 116u8, 114u8, 117u8, 109u8, 101u8, 110u8, 116u8, 75u8, 101u8, 121u8, 115u8, 34u8, 58u8, 91u8]
}

/// Closing of the subscribe payload: `]}}`.
pub open spec fn sub_suffix() -> Seq<u8> {
    seq![93u8, 125u8, 125u8]
}

/// The mode announcement inside every subscribe payload.
pub open spec fn mode_lit() -> Seq<u8> {
    seq![34u8, 109u8, 111u8, 100u8, 101u8, 34u8, 58u8, 34u8, 108u8, 116u8, 112u8, 99u8, 34u8]
}


/// Append the fixed segment [`sub_prefix`].
fn append_sub_prefix(out: &mut Vec<u8>)
    ensures
        final(out)@ == old(out)@ + sub_prefix(),
{
    out.push(123);
    out.push(34);
    out.push(103);
    out.push(117);
    out.push(105);
    out.push(100);
    out.push(34);
    out.push(58);
    out.push(34);
    proof {
        assert(out@ =~= old(out)@ + sub_prefix());
    }
}

/// Append the fixed segment [`sub_mid`].
fn append_sub_mid(out: &mut Vec<u8>)
    ensures
        final(out)@ == old(out)@ + sub_mid(),
{
    out.push(34);
    out.push(44);
    out.push(34);
    out.push(109);
    out.push(101);
    out.push(116);
    out.push(104);
    out.push(111);
    out.push(100);
    out.push(34);
    out.push(58);
    out.push(34);
    out.push(115);
    out.push(117);
    out.push(98);
    out.push(34);
    out.push(44);
    out.push(34);
    out.push(100);
    out.push(97);
    out.push(116);
    out.push(97);
    out.push(34);
    out.push(58);
    out.push(123);
    out.push(34);
    out.push(109);
    out.push(111);
    out.push(100);
    out.push(101);
    out.push(34);
    out.push(58);
    out.push(34);
    out.push(108);
    out.push(116);
    out.push(112);
    out.push(99);
    out.push(34);
    out.push(44);
    out.push(34);
    out.push(105);
    out.push(110);
    out.push(115);
    out.push(116);
    out.push(114);
    out.push(117);
    out.push(109);
    out.push(101);
    out.push(110);
    out.push(116);
    out.push(75);
    out.push(101);
    out.push(121);
    out.push(115);
    out.push(34);
    out.push(58);
    out.push(91);
    proof {
        assert(out@ =~= old(out)@ + sub_mid());
    }
}

/// Append the fixed segment [`sub_suffix`].
fn append_sub_suffix(out: &mut Vec<u8>)
    ensures
        final(out)@ == old(out)@ + sub_suffix(),
{
    out.push(93);
    out.push(125);
    out.push(125);
    proof {
        assert(out@ =~= old(out)@ + sub_suffix());
    }
}

/// A key list rendered as a JSON array of strings, in order.
pub open spec fn keys_array(keys: Seq<Seq<u8>>) -> Seq<u8>
    decreases keys.len(),
{
    if keys.len() == 0 {
        Seq::empty()
    } else if keys.len() == 1 {
        quoted(keys[0])
    } else {
        keys_array(keys.drop_last()) + seq![44u8] + quoted(keys.last())
    }
}

/// A byte string wrapped in JSON quotes.
pub open spec fn quoted(s: Seq<u8>) -> Seq<u8> {
    seq![34u8] + s + seq![34u8]
}

/// The whole subscribe payload for a guid and a key list: the one binary
/// control frame a session sends after connecting.
pub open spec fn subscribe_json(guid: Seq<u8>, keys: Seq<Seq<u8>>) -> Seq<u8> {
    sub_prefix() + guid + sub_mid() + keys_array(keys) + sub_suffix()
}

/// The mode is always `ltpc`: every subscribe payload carries the mode
/// announcement at its fixed place after the guid, whatever the guid and
/// whatever the keys.
pub proof fn lemma_subscribe_mode(guid: Seq<u8>, keys: Seq<Seq<u8>>)
    ensures
        subscribe_json(guid, keys).subrange(
            34 + guid.len() as int,
            47 + guid.len() as int,
        ) == mode_lit(),
{
    assert(subscribe_json(guid, keys).subrange(34 + guid.len() as int, 47 + guid.len() as int)
        =~= mode_lit());
}

/// Build the subscribe payload, refusing any guid or key that JSON cannot
/// carry verbatim.
pub fn build_subscribe_payload(guid: &[u8], keys: &Vec<Vec<u8>>) -> (r: Result<
    Vec<u8>,
    FeedError,
>)
    ensures
        match r {
            Ok(p) => {
                &&& p@ == subscribe_json(guid@, byte_views(keys@))
                &&& json_plain(guid@)
                &&& forall|i: int| 0 <= i < keys@.len() ==> json_plain(#[trigger] keys@[i]@)
            },
            Err(e) => {
                &&& e == FeedError::Config
                &&& !(json_plain(guid@) && forall|i: int|
                    0 <= i < keys@.len() ==> json_plain(#[trigger] keys@[i]@))
            },
        },
{
    if !is_json_plain(guid) {
        return Err(FeedError::Config);
    }
    let mut i: usize = 0;
    while i < keys.len()
        invariant
            i <= keys@.len(),
            forall|j: int| 0 <= j < i ==> json_plain(#[trigger] keys@[j]@),
        decreases keys@.len() - i,
    {
        if !is_json_plain(keys[i].as_slice()) {
            return Err(FeedError::Config);
        }
        i += 1;
    }
    let mut out: Vec<u8> = Vec::new();
    append_sub_prefix(&mut out);
    append_bytes(&mut out, guid);
    append_sub_mid(&mut out);
    let ghost head = sub_prefix() + guid@ + sub_mid();
    proof {
        assert(out@ =~= head + keys_array(byte_views(keys@).take(0)));
    }
    let mut k: usize = 0;
    while k < keys.len()
        invariant
            k <= keys@.len(),
            out@ == head + keys_array(byte_views(keys@).take(k as int)),
            head == sub_prefix() + guid@ + sub_mid(),
        decreases keys@.len() - k,
    {
        let ghost kv = byte_views(keys@);
        let ghost prev = out@;
        if k > 0 {
            out.push(44);
        }
        out.push(34);
        append_bytes(&mut out, keys[k].as_slice());
        out.push(34);
        proof {
            assert(kv.take(k + 1).drop_last() =~= kv.take(k as int));
            assert(kv.take(k + 1).last() == kv[k as int]);
            assert(kv[k as int] == keys@[k as int]@);
            if k == 0 {
                assert(out@ =~= prev + quoted(kv[k as int]));
                assert(keys_array(kv.take(1)) == quoted(kv.take(1)[0]));
                assert(kv.take(1)[0] == kv[0]);
                assert(out@ =~= head + keys_array(kv.take(k + 1)));
            } else {
                assert(out@ =~= prev + seq![44u8] + quoted(kv[k as int]));
                assert(kv.take(k + 1).len() > 1);
                assert(out@ =~= head + keys_array(kv.take(k + 1)));
            }
        }
        k += 1;
    }
    append_sub_suffix(&mut out);
    proof {
        assert(byte_views(keys@).take(keys@.len() as int) =~= byte_views(keys@));
        assert(out@ =~= subscribe_json(guid@, byte_views(keys@)));
    }
    Ok(out)
}

/// The full subscribe step: the distinct registry keys and the payload that
/// subscribes to exactly them. The key list is as long as the registry's
/// key count and the payload embeds it verbatim.
pub fn subscribe_frame(registry: &Registry, guid: &[u8]) -> (r: Result<
    (Vec<Vec<u8>>, Vec<u8>),
    FeedError,
>)
    ensures
        match r {
            Ok(kp) => {
                &&& byte_views(kp.0@).no_duplicates()
                &&& kp.0@.len() == registry.key_count()
                &&& forall|i: int|
                    0 <= i < registry@.len() ==> byte_views(kp.0@).contains(
                        #[trigger] registry@[i].key,
                    )
                &&& forall|j: int|
                    0 <= j < kp.0@.len() ==> keys_of(registry@).contains(#[trigger] kp.0@[j]@)
                &&& kp.1@ == subscribe_json(guid@, byte_views(kp.0@))
                &&& json_plain(guid@)
            },
            Err(e) => {
                &&& e == FeedError::Config
                &&& !(json_plain(guid@) && forall|i: int|
                    0 <= i < registry@.len() ==> json_plain((#[trigger] registry@[i]).key))
            },
        },
{
    let keys = registry.all_keys();
    match build_subscribe_payload(guid, &keys) {
        Ok(p) => {
            proof {
                assert forall|i: int| 0 <= i < registry@.len() implies json_plain(
                    (#[trigger] registry@[i]).key,
                ) by {
                    assert(byte_views(keys@).contains(registry@[i].key));
                    let j = choose|j: int|
                        0 <= j < byte_views(keys@).len() && byte_views(keys@)[j] == registry@[
                            i
                        ].key;
                    assert(json_plain(keys@[j]@));
                }
            }
            Ok((keys, p))
        },
        Err(e) => {
            proof {
                if json_plain(guid@) {
                    let j = choose|j: int| 0 <= j < keys@.len() && !json_plain(keys@[j]@);
                    assert(keys_of(registry@).contains(keys@[j]@));
                    let i = choose|i: int|
                        0 <= i < keys_of(registry@).len() && keys_of(registry@)[i] == keys@[
                            j
                        ]@;
                    assert(registry@[i].key == keys@[j]@);
                    assert(!json_plain(registry@[i].key));
                }
            }
            Err(e)
        },
    }
}

/// The member name `data` of the auth body.
pub open spec fn data_key() -> Seq<u8> {
    seq![100u8, 97u8, 116u8, 97u8]
}

/// The member name `authorizedRedirectUri` of the auth body.
pub open spec fn uri_key() -> Seq<u8> {
    seq![97u8, 117u8, 116u8, 104u8, 111u8, 114u8, 105u8, 122u8, 101u8, 100u8, 82u8, 101u8, 100u8, 105u8, 114u8, 101u8, 99u8, 116u8, 85u8, 114u8, 105u8]
}

/// The view of an optional byte string.
pub open spec fn opt_bytes(o: Option<Vec<u8>>) -> Option<Seq<u8>> {
    match o {
        Some(v) => Some(v@),
        None => None,
    }
}

/// Inside the `data` object, once its `{` is consumed: scan its members,
/// remembering the first `authorizedRedirectUri` member, whose value must
/// be a plain string. Answers the URI found so far and what follows the
/// object.
pub open spec fn data_members(s: Seq<u8>, found: Option<Seq<u8>>) -> Option<
    (Option<Seq<u8>>, Seq<u8>),
>
    decreases s.len(), 2int,
    via data_members_decreases
{
    let t = skip_ws(s);
    if t.len() == 0 {
        None
    } else if t[0] == 0x7d {
        Some((found, t.drop_first()))
    } else {
        data_member_list(t, found)
    }
}

/// One or more members of the `data` object, starting at an opening quote.
pub open spec fn data_member_list(s: Seq<u8>, found: Option<Seq<u8>>) -> Option<
    (Option<Seq<u8>>, Seq<u8>),
>
    decreases s.len(), 1int,
    via data_member_list_decreases
{
    match parse_string(s) {
        None => None,
        Some(kv) => {
            let ak = skip_ws(kv.1);
            if ak.len() == 0 || ak[0] != 0x3a {
                None
            } else {
                let v = ak.drop_first();
                if kv.0 == uri_key() && found is None {
                    let tv = skip_ws(v);
                    match parse_string(tv) {
                        None => None,  // the redirect URI must be a plain string
                        Some(uv) => if uv.1.len() >= s.len() {
                            None  // a string always consumes input; this arm is never taken
                        } else {
                            data_postlude(uv.1, Some(uv.0))
                        },
                    }
                } else {
                    match parse_value(v) {
                        None => None,
                        Some(rest) => if rest.len() >= s.len() {
                            None  // a value always consumes input; this arm is never taken
                        } else {
                            data_postlude(rest, found)
                        },
                    }
                }
            }
        },
    }
}

/// After one member of the `data` object: a comma and another member, or
/// the closing `}`.
pub open spec fn data_postlude(s: Seq<u8>, found: Option<Seq<u8>>) -> Option<
    (Option<Seq<u8>>, Seq<u8>),
>
    decreases s.len(), 1int,
    via data_postlude_decreases
{
    let u = skip_ws(s);
    if u.len() == 0 {
        None
    } else if u[0] == 0x2c {
        let n = skip_ws(u.drop_first());
        if n.len() >= s.len() {
            None  // the comma was consumed; this arm is never taken
        } else {
            data_member_list(n, found)
        }
    } else if u[0] == 0x7d {
        Some((found, u.drop_first()))
    } else {
        None
    }
}

/// The members of the top auth object, once its `{` is consumed. The first
/// member named `data` must be an object holding the redirect URI; every
/// other member is read as plain JSON and ignored.
pub open spec fn auth_members(s: Seq<u8>, found: Option<Seq<u8>>) -> Option<
    (Option<Seq<u8>>, Seq<u8>),
>
    decreases s.len(), 2int,
    via auth_members_decreases
{
    let t = skip_ws(s);
    if t.len() == 0 {
        None
    } else if t[0] == 0x7d {
        Some((found, t.drop_first()))
    } else {
        auth_member_list(t, found)
    }
}

/// One or more members of the top auth object, starting at an opening
/// quote.
pub open spec fn auth_member_list(s: Seq<u8>, found: Option<Seq<u8>>) -> Option<
    (Option<Seq<u8>>, Seq<u8>),
>
    decreases s.len(), 1int,
    via auth_member_list_decreases
{
    match parse_string(s) {
        None => None,
        Some(kv) => {
            let ak = skip_ws(kv.1);
            if ak.len() == 0 || ak[0] != 0x3a {
                None
            } else {
                let v = ak.drop_first();
                if kv.0 == data_key() && found is None {
                    let tv = skip_ws(v);
                    if tv.len() == 0 || tv[0] != 0x7b {
                        None  // the first `data` member must be an object
                    } else {
                        match data_members(tv.drop_first(), None) {
                            None => None,
                            Some(dr) => match dr.0 {
                                None => None,  // no redirect URI inside `data`
                                Some(uri) => if dr.1.len() >= s.len() {
                                    None  // the object was consumed; this arm is never taken
                                } else {
                                    auth_postlude(dr.1, Some(uri))
                                },
                            },
                        }
                    }
                } else {
                    match parse_value(v) {
                        None => None,
                        Some(rest) => if rest.len() >= s.len() {
                            None  // a value always consumes input; this arm is never taken
                        } else {
                            auth_postlude(rest, found)
                        },
                    }
                }
            }
        },
    }
}

/// After one member of the top auth object: a comma and another member, or
/// the closing `}`.
pub open spec fn auth_postlude(s: Seq<u8>, found: Option<Seq<u8>>) -> Option<
    (Option<Seq<u8>>, Seq<u8>),
>
    decreases s.len(), 1int,
    via auth_postlude_decreases
{
    let u = skip_ws(s);
    if u.len() == 0 {
        None
    } else if u[0] == 0x2c {
        let n = skip_ws(u.drop_first());
        if n.len() >= s.len() {
            None  // the comma was consumed; this arm is never taken
        } else {
            auth_member_list(n, found)
        }
    } else if u[0] == 0x7d {
        Some((found, u.drop_first()))
    } else {
        None
    }
}

#[via_fn]
proof fn data_members_decreases(s: Seq<u8>, found: Option<Seq<u8>>) {
    lemma_ws_string_facts();
}

#[via_fn]
proof fn data_member_list_decreases(s: Seq<u8>, found: Option<Seq<u8>>) {
    lemma_ws_string_facts();
}

#[via_fn]
proof fn data_postlude_decreases(s: Seq<u8>, found: Option<Seq<u8>>) {
    lemma_ws_string_facts();
}

#[via_fn]
proof fn auth_members_decreases(s: Seq<u8>, found: Option<Seq<u8>>) {
    lemma_ws_string_facts();
}

#[via_fn]
proof fn auth_member_list_decreases(s: Seq<u8>, found: Option<Seq<u8>>) {
    lemma_ws_string_facts();
}

#[via_fn]
proof fn auth_postlude_decreases(s: Seq<u8>, found: Option<Seq<u8>>) {
    lemma_ws_string_facts();
}

/// Whitespace skipping never grows the input and a parsed string consumes
/// its quotes: the facts the termination proofs above lean on.
proof fn lemma_ws_string_facts()
    ensures
        forall|x: Seq<u8>| (#[trigger] skip_ws(x)).len() <= x.len(),
        forall|x: Seq<u8>| #[trigger] parse_string(x) matches Some(kv) ==> kv.1.len() + 2
            <= x.len(),
{
    assert forall|x: Seq<u8>| (#[trigger] skip_ws(x)).len() <= x.len() by {
        lemma_skip_ws_len(x);
    }
    assert forall|x: Seq<u8>| #[trigger] parse_string(x) matches Some(kv) ==> kv.1.len() + 2
        <= x.len() by {
        lemma_parse_string_len(x);
    }
}

/// Where a well-formed auth body keeps its redirect URI: the body is one
/// JSON object (of the subset in `json`) whose first `data` member is an
/// object, and the URI is that object's first `authorizedRedirectUri`
/// member, a plain string. Whitespace and unknown members are tolerated;
/// string escapes are not, and trailing content is refused.
pub open spec fn auth_uri(body: Seq<u8>) -> Option<Seq<u8>> {
    let t = skip_ws(body);
    if t.len() == 0 || t[0] != 0x7b {
        None
    } else {
        match auth_members(t.drop_first(), None) {
            None => None,
            Some(r) => if skip_ws(r.1).len() == 0 {
                r.0
            } else {
                None
            },
        }
    }
}

/// The member name `data`, as bytes.
fn data_key_vec() -> (v: Vec<u8>)
    ensures
        v@ == data_key(),
{
    let mut v: Vec<u8> = Vec::new();
    v.push(100);
    v.push(97);
    v.push(116);
    v.push(97);
    proof {
        assert(v@ =~= data_key());
    }
    v
}

/// The member name `authorizedRedirectUri`, as bytes.
fn uri_key_vec() -> (v: Vec<u8>)
    ensures
        v@ == uri_key(),
{
    let mut v: Vec<u8> = Vec::new();
    v.push(97);
    v.push(117);
    v.push(116);
    v.push(104);
    v.push(111);
    v.push(114);
    v.push(105);
    v.push(122);
    v.push(101);
    v.push(100);
    v.push(82);
    v.push(101);
    v.push(100);
    v.push(105);
    v.push(114);
    v.push(101);
    v.push(99);
    v.push(116);
    v.push(85);
    v.push(114);
    v.push(105);
    proof {
        assert(v@ =~= uri_key());
    }
    v
}

/// Read the `data` object's members at `pos`, its `{` already consumed.
fn data_members_exec(b: &[u8], pos: usize, found: Option<Vec<u8>>) -> (r: Option<
    (Option<Vec<u8>>, usize),
>)
    requires
        pos <= b@.len(),
    ensures
        match r {
            Some(fp) => data_members(b@.skip(pos as int), opt_bytes(found)) == Some(
                (opt_bytes(fp.0), b@.skip(fp.1 as int)),
            ) && pos < fp.1 <= b@.len(),
            None => data_members(b@.skip(pos as int), opt_bytes(found)) is None,
        },
    decreases b@.len() - pos, 2int,
{
    let t0 = ws_to(b, pos);
    let ghost t = b@.skip(t0 as int);
    if t0 >= b.len() {
        return None;
    }
    proof {
        assert(t[0] == b@[t0 as int]);
    }
    if b[t0] == 0x7d {
        proof {
            assert(t.drop_first() =~= b@.skip(t0 + 1));
        }
        return Some((found, t0 + 1));
    }
    data_member_list_exec(b, t0, found)
}

/// Read a member list of the `data` object at `pos`.
fn data_member_list_exec(b: &[u8], pos: usize, found: Option<Vec<u8>>) -> (r: Option<
    (Option<Vec<u8>>, usize),
>)
    requires
        pos <= b@.len(),
    ensures
        match r {
            Some(fp) => data_member_list(b@.skip(pos as int), opt_bytes(found)) == Some(
                (opt_bytes(fp.0), b@.skip(fp.1 as int)),
            ) && pos < fp.1 <= b@.len(),
            None => data_member_list(b@.skip(pos as int), opt_bytes(found)) is None,
        },
    decreases b@.len() - pos, 1int,
{
    let ghost s = b@.skip(pos as int);
    let key = match string_exec(b, pos) {
        Some(cp) => cp,
        None => {
            return None;
        },
    };
    let a0 = ws_to(b, key.1);
    let ghost ak = b@.skip(a0 as int);
    if a0 >= b.len() {
        return None;
    }
    proof {
        assert(ak[0] == b@[a0 as int]);
    }
    if b[a0] != 0x3a {
        return None;
    }
    proof {
        assert(ak.drop_first() =~= b@.skip(a0 + 1));
    }
    let is_uri = bytes_eq(key.0.as_slice(), uri_key_vec().as_slice());
    if is_uri && found.is_none() {
        let tv0 = ws_to(b, a0 + 1);
        match string_exec(b, tv0) {
            None => None,
            Some(uv) => data_postlude_exec(b, uv.1, Some(uv.0)),
        }
    } else {
        match value_exec(b, a0 + 1) {
            None => None,
            Some(vp) => data_postlude_exec(b, vp, found),
        }
    }
}

/// After one member of the `data` object.
fn data_postlude_exec(b: &[u8], pos: usize, found: Option<Vec<u8>>) -> (r: Option<
    (Option<Vec<u8>>, usize),
>)
    requires
        pos <= b@.len(),
    ensures
        match r {
            Some(fp) => data_postlude(b@.skip(pos as int), opt_bytes(found)) == Some(
                (opt_bytes(fp.0), b@.skip(fp.1 as int)),
            ) && pos < fp.1 <= b@.len(),
            None => data_postlude(b@.skip(pos as int), opt_bytes(found)) is None,
        },
    decreases b@.len() - pos, 1int,
{
    let u0 = ws_to(b, pos);
    let ghost u = b@.skip(u0 as int);
    if u0 >= b.len() {
        return None;
    }
    proof {
        assert(u[0] == b@[u0 as int]);
    }
    if b[u0] == 0x2c {
        proof {
            assert(u.drop_first() =~= b@.skip(u0 + 1));
        }
        let n0 = ws_to(b, u0 + 1);
        data_member_list_exec(b, n0, found)
    } else if b[u0] == 0x7d {
        proof {
            assert(u.drop_first() =~= b@.skip(u0 + 1));
        }
        Some((found, u0 + 1))
    } else {
        None
    }
}

/// Read the top auth object's members at `pos`, its `{` already consumed.
fn auth_members_exec(b: &[u8], pos: usize, found: Option<Vec<u8>>) -> (r: Option<
    (Option<Vec<u8>>, usize),
>)
    requires
        pos <= b@.len(),
    ensures
        match r {
            Some(fp) => auth_members(b@.skip(pos as int), opt_bytes(found)) == Some(
                (opt_bytes(fp.0), b@.skip(fp.1 as int)),
            ) && pos < fp.1 <= b@.len(),
            None => auth_members(b@.skip(pos as int), opt_bytes(found)) is None,
        },
    decreases b@.len() - pos, 2int,
{
    let t0 = ws_to(b, pos);
    let ghost t = b@.skip(t0 as int);
    if t0 >= b.len() {
        return None;
    }
    proof {
        assert(t[0] == b@[t0 as int]);
    }
    if b[t0] == 0x7d {
        proof {
            assert(t.drop_first() =~= b@.skip(t0 + 1));
        }
        return Some((found, t0 + 1));
    }
    auth_member_list_exec(b, t0, found)
}

/// Read a member list of the top auth object at `pos`.
fn auth_member_list_exec(b: &[u8], pos: usize, found: Option<Vec<u8>>) -> (r: Option<
    (Option<Vec<u8>>, usize),
>)
    requires
        pos <= b@.len(),
    ensures
        match r {
            Some(fp) => auth_member_list(b@.skip(pos as int), opt_bytes(found)) == Some(
                (opt_bytes(fp.0), b@.skip(fp.1 as int)),
            ) && pos < fp.1 <= b@.len(),
            None => auth_member_list(b@.skip(pos as int), opt_bytes(found)) is None,
        },
    decreases b@.len() - pos, 1int,
{
    let ghost s = b@.skip(pos as int);
    let key = match string_exec(b, pos) {
        Some(cp) => cp,
        None => {
            return None;
        },
    };
    let a0 = ws_to(b, key.1);
    let ghost ak = b@.skip(a0 as int);
    if a0 >= b.len() {
        return None;
    }
    proof {
        assert(ak[0] == b@[a0 as int]);
    }
    if b[a0] != 0x3a {
        return None;
    }
    proof {
        assert(ak.drop_first() =~= b@.skip(a0 + 1));
    }
    let is_data = bytes_eq(key.0.as_slice(), data_key_vec().as_slice());
    if is_data && found.is_none() {
        let tv0 = ws_to(b, a0 + 1);
        let ghost tv = b@.skip(tv0 as int);
        if tv0 >= b.len() {
            return None;
        }
        proof {
            assert(tv[0] == b@[tv0 as int]);
        }
        if b[tv0] != 0x7b {
            return None;
        }
        proof {
            assert(tv.drop_first() =~= b@.skip(tv0 + 1));
        }
        match data_members_exec(b, tv0 + 1, None) {
            None => None,
            Some(dr) => match dr.0 {
                None => None,
                Some(uri) => auth_postlude_exec(b, dr.1, Some(uri)),
            },
        }
    } else {
        match value_exec(b, a0 + 1) {
            None => None,
            Some(vp) => auth_postlude_exec(b, vp, found),
        }
    }
}

/// After one member of the top auth object.
fn auth_postlude_exec(b: &[u8], pos: usize, found: Option<Vec<u8>>) -> (r: Option<
    (Option<Vec<u8>>, usize),
>)
    requires
        pos <= b@.len(),
    ensures
        match r {
            Some(fp) => auth_postlude(b@.skip(pos as int), opt_bytes(found)) == Some(
                (opt_bytes(fp.0), b@.skip(fp.1 as int)),
            ) && pos < fp.1 <= b@.len(),
            None => auth_postlude(b@.skip(pos as int), opt_bytes(found)) is None,
        },
    decreases b@.len() - pos, 1int,
{
    let u0 = ws_to(b, pos);
    let ghost u = b@.skip(u0 as int);
    if u0 >= b.len() {
        return None;
    }
    proof {
        assert(u[0] == b@[u0 as int]);
    }
    if b[u0] == 0x2c {
        proof {
            assert(u.drop_first() =~= b@.skip(u0 + 1));
        }
        let n0 = ws_to(b, u0 + 1);
        auth_member_list_exec(b, n0, found)
    } else if b[u0] == 0x7d {
        proof {
            assert(u.drop_first() =~= b@.skip(u0 + 1));
        }
        Some((found, u0 + 1))
    } else {
        None
    }
}

/// Extract the redirect URI from an auth body of the documented shape.
pub fn parse_auth_body(body: &[u8]) -> (r: Option<Vec<u8>>)
    ensures
        match r {
            Some(uri) => auth_uri(body@) == Some(uri@),
            None => auth_uri(body@) is None,
        },
{
    proof {
        assert(body@.skip(0) =~= body@);
    }
    let t0 = ws_to(body, 0);
    let ghost t = body@.skip(t0 as int);
    if t0 >= body.len() {
        return None;
    }
    proof {
        assert(t[0] == body@[t0 as int]);
    }
    if body[t0] != 0x7b {
        return None;
    }
    proof {
        assert(t.drop_first() =~= body@.skip(t0 + 1));
    }
    match auth_members_exec(body, t0 + 1, None) {
        None => None,
        Some(fp) => {
            let e0 = ws_to(body, fp.1);
            if e0 < body.len() {
                proof {
                    assert(skip_ws(body@.skip(fp.1 as int)).len() == body@.len() - e0);
                }
                None
            } else {
                match fp.0 {
                    Some(uri) => Some(uri),
                    None => None,
                }
            }
        },
    }
}

/// Judge the auth step: success is exactly a 2xx status whose body parses
/// to the documented shape; anything else is a fatal auth error.
pub fn handle_auth_response(status: u16, body: &[u8]) -> (r: Result<Vec<u8>, FeedError>)
    ensures
        match r {
            Ok(uri) => 200 <= status < 300 && auth_uri(body@) == Some(uri@),
            Err(e) => e == FeedError::Auth && !(200 <= status < 300 && auth_uri(body@) is Some),
        },
{
    if status < 200 || status >= 300 {
        return Err(FeedError::Auth);
    }
    match parse_auth_body(body) {
        Some(uri) => Ok(uri),
        None => Err(FeedError::Auth),
    }
}

/// Where one streaming session stands.
#[derive(Clone, Copy, Debug, PartialEq, Eq, Structural)]
pub enum SessionState {
    /// Waiting for the auth endpoint's answer.
    AwaitingAuth,
    /// Authorized; waiting for the transport to open.
    Connecting,
    /// Subscribed and reading frames.
    Streaming,
    /// The transport closed in an orderly way.
    Closed,
    /// A fatal error ended the session.
    Failed,
}

/// One streaming session's decisions: what to make of the auth answer, the
/// connect outcome and each inbound frame. It performs no I/O itself.
pub struct Session {
    state: SessionState,
    guid: Vec<u8>,
}

impl Session {
    /// Which phase the session is in.
    pub closed spec fn state_of(self) -> SessionState {
        self.state
    }

    /// The session-correlation identifier carried by the subscribe payload.
    pub closed spec fn guid_of(self) -> Seq<u8> {
        self.guid@
    }

    /// A fresh session that still has to authorize.
    pub fn new(guid: Vec<u8>) -> (s: Session)
        ensures
            s.state_of() == SessionState::AwaitingAuth,
            s.guid_of() == guid@,
    {
        Session { state: SessionState::AwaitingAuth, guid }
    }

    /// The current phase.
    pub fn state(&self) -> (s: SessionState)
        ensures
            s == self.state_of(),
    {
        self.state
    }

    /// Feed in the auth endpoint's answer. A 2xx status with a well-formed
    /// body yields the redirect URI to connect to; anything else is fatal
    /// and the session never starts.
    pub fn on_auth_response(&mut self, status: u16, body: &[u8]) -> (r: Result<Vec<u8>, FeedError>)
        requires
            old(self).state_of() == SessionState::AwaitingAuth,
        ensures
            final(self).guid_of() == old(self).guid_of(),
            match r {
                Ok(uri) => {
                    &&& final(self).state_of() == SessionState::Connecting
                    &&& 200 <= status < 300
                    &&& auth_uri(body@) == Some(uri@)
                },
                Err(e) => {
                    &&& final(self).state_of() == SessionState::Failed
                    &&& e == FeedError::Auth
                    &&& !(200 <= status < 300 && auth_uri(body@) is Some)
                },
            },
    {
        match handle_auth_response(status, body) {
            Ok(uri) => {
                self.state = SessionState::Connecting;
                Ok(uri)
            },
            Err(e) => {
                self.state = SessionState::Failed;
                Err(e)
            },
        }
    }

    /// The transport opened: hand back the distinct registry keys and the
    /// one subscribe control frame to send.
    pub fn on_connected(&mut self, registry: &Registry) -> (r: Result<
        (Vec<Vec<u8>>, Vec<u8>),
        FeedError,
    >)
        requires
            old(self).state_of() == SessionState::Connecting,
        ensures
            final(self).guid_of() == old(self).guid_of(),
            match r {
                Ok(kp) => {
                    &&& final(self).state_of() == SessionState::Streaming
                    &&& byte_views(kp.0@).no_duplicates()
                    &&& kp.0@.len() == registry.key_count()
                    &&& forall|i: int|
                        0 <= i < registry@.len() ==> byte_views(kp.0@).contains(
                            #[trigger] registry@[i].key,
                        )
                    &&& forall|j: int|
                        0 <= j < kp.0@.len() ==> keys_of(registry@).contains(
                            #[trigger] kp.0@[j]@,
                        )
                    &&& kp.1@ == subscribe_json(old(self).guid_of(), byte_views(kp.0@))
                },
                Err(e) => {
                    &&& final(self).state_of() == SessionState::Failed
                    &&& e == FeedError::Config
                    &&& !(json_plain(old(self).guid_of()) && forall|i: int|
                        0 <= i < registry@.len() ==> json_plain(
                            (#[trigger] registry@[i]).key,
                        ))
                },
            },
    {
        match subscribe_frame(registry, self.guid.as_slice()) {
            Ok(kp) => {
                self.state = SessionState::Streaming;
                Ok(kp)
            },
            Err(e) => {
                self.state = SessionState::Failed;
                Err(e)
            },
        }
    }

    /// The transport handshake failed: fatal.
    pub fn on_connect_failed(&mut self) -> (e: FeedError)
        ensures
            final(self).state_of() == SessionState::Failed,
            final(self).guid_of() == old(self).guid_of(),
            e == FeedError::Connection,
    {
        self.state = SessionState::Failed;
        FeedError::Connection
    }

    /// One inbound binary frame while streaming: decode it and evaluate
    /// every entry in order. An undecodable frame is fatal and leaves no
    /// partial side effects from that frame.
    pub fn on_frame(
        &mut self,
        registry: &Registry,
        store: &mut RuleStore,
        bytes: &[u8],
        now: u64,
    ) -> (r: Result<Vec<AlertEvent>, FeedError>)
        requires
            old(self).state_of() == SessionState::Streaming,
            old(store).wf(),
        ensures
            final(self).guid_of() == old(self).guid_of(),
            final(store).wf(),
            match r {
                Ok(events) => {
                    &&& final(self).state_of() == SessionState::Streaming
                    &&& parse_batch(bytes@) is Some
                    &&& events_view(events@) == batch_eval(
                        old(store)@,
                        registry@,
                        parse_batch(bytes@)->Some_0,
                        now,
                    ).0
                    &&& final(store)@ == batch_eval(
                        old(store)@,
                        registry@,
                        parse_batch(bytes@)->Some_0,
                        now,
                    ).1
                },
                Err(e) => {
                    &&& final(self).state_of() == SessionState::Failed
                    &&& e == FeedError::Protocol
                    &&& parse_batch(bytes@) is None
                    &&& final(store)@ == old(store)@
                },
            },
    {
        match crate::codec::decode(bytes) {
            Ok(batch) => Ok(evaluate_batch(registry, store, &batch, now)),
            Err(e) => {
                self.state = SessionState::Failed;
                Err(e)
            },
        }
    }

    /// A transport read error mid-stream is fatal: the read loop ends with
    /// the cause surfaced, never swallowed.
    pub fn on_read_error(&mut self) -> (e: FeedError)
        requires
            old(self).state_of() == SessionState::Streaming,
        ensures
            final(self).state_of() == SessionState::Failed,
            final(self).guid_of() == old(self).guid_of(),
            e == FeedError::Transport,
    {
        self.state = SessionState::Failed;
        FeedError::Transport
    }

    /// An orderly transport close ends the read loop.
    pub fn on_closed(&mut self)
        ensures
            final(self).state_of() == SessionState::Closed,
            final(self).guid_of() == old(self).guid_of(),
    {
        self.state = SessionState::Closed;
    }
}

} // verus!

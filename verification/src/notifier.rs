//! The notifier: renders a triggered-alert event as one log line, the
//! minimal sink the pipeline depends on. Emission and the mark-sent write
//! are one logical unit: the evaluator marks the rule in the same step that
//! produces the event, so a delivered line is never owed twice.

use vstd::prelude::*;
use crate::errors::FeedError;
use crate::rules::AlertEvent;
use crate::rules::EventView;
use crate::rules::MarkOutcome;
use crate::rules::RuleStore;

verus! {

/// The decimal digits of `n`, most significant first, no leading zeros.
pub open spec fn dec_digits(n: nat) -> Seq<u8>
    decreases n,
{
    if n < 10 {
        seq![(48 + n) as u8]
    } else {
        dec_digits(n / 10).push((48 + n % 10) as u8)
    }
}

/// A fixed-point price in hundredths rendered with two decimals.
pub open spec fn price_bytes(price: u64) -> Seq<u8> {
    dec_digits((price / 100) as nat) + seq![
        46u8,
        (48 + (price / 10) % 10) as u8,
        (48 + price % 10) as u8,
    ]
}

/// The fixed segment `ALERT ` of an alert line.
pub open spec fn alert_head() -> Seq<u8> {
    seq![65u8, 76u8, 69u8, 82u8, 84u8, 32u8]
}

/// The fixed segment ` key=` of an alert line.
pub open spec fn key_sep() -> Seq<u8> {
    seq![32u8, 107u8, 101u8, 121u8, 61u8]
}

/// The fixed segment ` price=` of an alert line.
pub open spec fn price_sep() -> Seq<u8> {
    seq![32u8, 112u8, 114u8, 105u8, 99u8, 101u8, 61u8]
}

/// The fixed segment ` rule=` of an alert line.
pub open spec fn rule_sep() -> Seq<u8> {
    seq![32u8, 114u8, 117u8, 108u8, 101u8, 61u8]
}

/// The fixed segment ` at=` of an alert line.
pub open spec fn time_sep() -> Seq<u8> {
    seq![32u8, 97u8, 116u8, 61u8]
}

/// The whole log line for one alert event.
pub open spec fn alert_line(e: EventView) -> Seq<u8> {
    alert_head() + e.symbol + key_sep() + e.instrument_key + price_sep() + price_bytes(e.price)
        + rule_sep() + dec_digits(e.rule_id as nat) + time_sep() + dec_digits(
        e.triggered_at as nat,
    )
}

/// Append the fixed segment [`alert_head`].
fn append_alert_head(out: &mut Vec<u8>)
    ensures
        final(out)@ == old(out)@ + alert_head(),
{
    out.push(65);
    out.push(76);
    out.push(69);
    out.push(82);
    out.push(84);
    out.push(32);
    proof {
        assert(out@ =~= old(out)@ + alert_head());
    }
}

/// Append the fixed segment [`key_sep`].
fn append_key_sep(out: &mut Vec<u8>)
    ensures
        final(out)@ == old(out)@ + key_sep(),
{
    out.push(32);
    out.push(107);
    out.push(101);
    out.push(121);
    out.push(61);
    proof {
        assert(out@ =~= old(out)@ + key_sep());
    }
}

/// Append the fixed segment [`price_sep`].
fn append_price_sep(out: &mut Vec<u8>)
    ensures
        final(out)@ == old(out)@ + price_sep(),
{
    out.push(32);
    out.push(112);
    out.push(114);
    out.push(105);
    out.push(99);
    out.push(101);
    out.push(61);
    proof {
        assert(out@ =~= old(out)@ + price_sep());
    }
}

/// Append the fixed segment [`rule_sep`].
fn append_rule_sep(out: &mut Vec<u8>)
    ensures
        final(out)@ == old(out)@ + rule_sep(),
{
    out.push(32);
    out.push(114);
    out.push(117);
    out.push(108);
    out.push(101);
    out.push(61);
    proof {
        assert(out@ =~= old(out)@ + rule_sep());
    }
}

/// Append the fixed segment [`time_sep`].
fn append_time_sep(out: &mut Vec<u8>)
    ensures
        final(out)@ == old(out)@ + time_sep(),
{
    out.push(32);
    out.push(97);
    out.push(116);
    out.push(61);
    proof {
        assert(out@ =~= old(out)@ + time_sep());
    }
}

/// Append the decimal rendering of `n`.
fn append_u64(out: &mut Vec<u8>, n: u64)
    ensures
        final(out)@ == old(out)@ + dec_digits(n as nat),
{
    let mut tmp: Vec<u8> = Vec::new();
    let mut m: u64 = n;
    proof {
        assert(tmp@.reverse() =~= Seq::<u8>::empty());
        assert(dec_digits(m as nat) + tmp@.reverse() =~= dec_digits(n as nat));
    }
    while m >= 10
        invariant
            dec_digits(m as nat) + tmp@.reverse() == dec_digits(n as nat),
        decreases m,
    {
        let ghost old_tmp = tmp@;
        let d: u8 = 48 + (m % 10) as u8;
        tmp.push(d);
        proof {
            assert(tmp@.reverse() =~= seq![d] + old_tmp.reverse());
            assert(dec_digits((m / 10) as nat).push(d) + old_tmp.reverse() =~= dec_digits(
                (m / 10) as nat,
            ) + tmp@.reverse());
        }
        m = m / 10;
        proof {
            assert(m < 10 || m >= 10);
        }
    }
    let ghost old_tmp = tmp@;
    let d: u8 = 48 + (m % 10) as u8;
    tmp.push(d);
    proof {
        assert(m % 10 == m as nat);
        assert(dec_digits(m as nat) =~= seq![d]);
        assert(tmp@.reverse() =~= seq![d] + old_tmp.reverse());
        assert(tmp@.reverse() =~= dec_digits(n as nat));
    }
    let mut k: usize = 0;
    let total = tmp.len();
    while k < total
        invariant
            k <= total,
            total == tmp@.len(),
            out@ == old(out)@ + tmp@.reverse().take(k as int),
        decreases total - k,
    {
        out.push(tmp[total - 1 - k]);
        proof {
            assert(tmp@.reverse()[k as int] == tmp@[total - 1 - k]);
            assert(old(out)@ + tmp@.reverse().take(k + 1) =~= (old(out)@
                + tmp@.reverse().take(k as int)).push(tmp@[total - 1 - k]));
        }
        k += 1;
    }
    proof {
        assert(tmp@.reverse().take(total as int) =~= tmp@.reverse());
    }
}

/// Render one triggered-alert event as its log line.
pub fn format_alert(e: &AlertEvent) -> (line: Vec<u8>)
    ensures
        line@ == alert_line(e@),
{
    let mut out: Vec<u8> = Vec::new();
    append_alert_head(&mut out);
    crate::bytes::append_bytes(&mut out, e.symbol.as_slice());
    append_key_sep(&mut out);
    crate::bytes::append_bytes(&mut out, e.instrument_key.as_slice());
    append_price_sep(&mut out);
    append_u64(&mut out, e.price / 100);
    out.push(46);
    out.push(48 + ((e.price / 10) % 10) as u8);
    out.push(48 + (e.price % 10) as u8);
    append_rule_sep(&mut out);
    append_u64(&mut out, e.rule_id);
    append_time_sep(&mut out);
    append_u64(&mut out, e.triggered_at);
    proof {
        assert(out@ =~= alert_line(e@));
    }
    out
}

/// What became of one event at the delivery boundary.
#[derive(Debug)]
pub enum Delivery {
    /// The conditional write won: the rule is now marked and this line is
    /// owed to the sink.
    Emitted(Vec<u8>),
    /// The rule was already marked sent, so the local trigger is
    /// suppressed: duplicate suppression, never duplicate notification.
    Suppressed,
}

/// Deliver one event where emission and the mark-sent write are decoupled:
/// emit only if the conditional write wins; suppress if another writer
/// already marked the rule; surface a missing rule, never drop it.
pub fn deliver(store: &mut RuleStore, event: &AlertEvent) -> (r: Result<Delivery, FeedError>)
    requires
        old(store).wf(),
    ensures
        final(store).wf(),
        match r {
            Ok(d) => match d {
                Delivery::Emitted(line) => {
                    &&& line@ == alert_line(event@)
                    &&& exists|i: int|
                        0 <= i < old(store)@.len() && (#[trigger] old(store)@[i]).id
                            == event@.rule_id && old(store)@[i].is_active() && final(store)@
                            == old(store)@.update(
                            i,
                            old(store)@[i].marked(event@.triggered_at),
                        )
                },
                Delivery::Suppressed => final(store)@ == old(store)@ && exists|i: int|
                    0 <= i < old(store)@.len() && (#[trigger] old(store)@[i]).id
                        == event@.rule_id && !old(store)@[i].is_active(),
            },
            Err(e) => e == FeedError::RuleStore && final(store)@ == old(store)@ && forall|i: int|
                0 <= i < old(store)@.len() ==> (#[trigger] old(store)@[i]).id != event@.rule_id,
        },
{
    match store.mark_sent(event.rule_id, event.triggered_at) {
        MarkOutcome::Marked => Ok(Delivery::Emitted(format_alert(event))),
        MarkOutcome::AlreadySent => Ok(Delivery::Suppressed),
        MarkOutcome::NotFound => Err(FeedError::RuleStore),
    }
}

} // verus!

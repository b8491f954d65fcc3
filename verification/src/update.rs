//! The one-shot update: parse the backing text, append the new record,
//! re-encode, and summarize the record's own signature over the updated
//! history. This is the whole read-modify-write step of one invocation, minus
//! the file I/O around it.
use vstd::prelude::*;
use vstd::pervasive::unreached;
use crate::history::{sig_of, History, TimingRecord};
use crate::codec::{enc_history, parse_history_text, encode_history, parse_history};
use crate::roundtrip::lemma_round_trip;
use crate::stats::{
    aggregates_fit, dev_num_of, durations_of, max_of, min_of, sum_of, summarize,
    lemma_signature_extends, StatsError, StatisticsSummary,
};

verus! {

/// Errors of the update step.
#[derive(Debug)]
pub enum UpdateError {
    /// The backing text is not a well-formed history document.
    CorruptHistory,
    /// The summary aggregates of the updated signature exceed a `u128`.
    Overflow,
}

/// Everything one invocation produces: the new backing text, the updated
/// history, and the summary of the appended record's signature.
pub struct UpdateOutcome {
    pub text: Vec<char>,
    pub history: History,
    pub summary: StatisticsSummary,
}

/// Parses `text`, appends `rec`, and returns the re-encoded text together
/// with the updated history and the statistics of `rec`'s own signature over
/// it. The appended record itself always matches that signature, so the
/// summary never lacks samples.
pub fn updated_content(text: &Vec<char>, rec: TimingRecord) -> (r: Result<UpdateOutcome, UpdateError>)
    ensures
        match r {
            Ok(o) => {
                let p = parse_history_text(text@);
                let ds = durations_of(o.history@, sig_of(rec@));
                &&& p is Some
                &&& o.history@ == p.unwrap().push(rec@)
                &&& o.text@ == enc_history(o.history@)
                &&& parse_history_text(o.text@) == Some(o.history@)
                &&& ds.len() > 0
                &&& aggregates_fit(ds)
                &&& o.summary.command@ == rec@.command
                &&& crate::history::strs_view(o.summary.args@) == rec@.args
                &&& o.summary.count == ds.len()
                &&& o.summary.min_ns == min_of(ds)
                &&& o.summary.max_ns == max_of(ds)
                &&& o.summary.sum_ns == sum_of(ds)
                &&& o.summary.dev_num == dev_num_of(ds)
            },
            Err(UpdateError::CorruptHistory) => parse_history_text(text@) is None,
            Err(UpdateError::Overflow) => {
                let p = parse_history_text(text@);
                &&& p is Some
                &&& !aggregates_fit(durations_of(p.unwrap().push(rec@), sig_of(rec@)))
            },
        },
{
    let mut h = match parse_history(text) {
        Some(h) => h,
        None => {
            return Err(UpdateError::CorruptHistory);
        },
    };
    let sig = rec.signature();
    let ghost before = h@;
    proof {
        lemma_signature_extends(before, rec@, sig_of(rec@));
    }
    h.append(rec);
    let t2 = encode_history(&h);
    proof {
        lemma_round_trip(h@);
    }
    match summarize(&h, &sig) {
        Ok(summary) => Ok(UpdateOutcome { text: t2, history: h, summary }),
        Err(StatsError::NoSamples) => unreached(),
        Err(StatsError::Overflow) => Err(UpdateError::Overflow),
    }
}

} // verus!

use vstd::prelude::*;

verus! {

/// The shape every rendered timestamp has: at least 19 characters, the last
/// fifteen reading `-MM-DD-HH-MM-SS` — dashes at the field breaks, decimal
/// digits elsewhere. The leading year field is zero-padded to four digits,
/// which makes the lexicographic order of identifiers chronological for all
/// four-digit years; only that much is stated, because chrono widens the
/// year field beyond four digits (or signs it) rather than truncate.
pub open spec fn clock_tail_shape(s: Seq<char>) -> bool {
    &&& s.len() >= 19
    &&& forall|k: int|
        #![trigger s[s.len() - 15 + k]]
        0 <= k < 15 ==> if k == 0 || k == 3 || k == 6 || k == 9 || k == 12 {
            s[s.len() - 15 + k] == '-'
        } else {
            ('0' as u32) <= (s[s.len() - 15 + k] as u32) <= ('9' as u32)
        }
}

/// Relies on chrono's `Local::now` and `DateTime::format`: the current local
/// time rendered at second resolution as `YYYY-MM-DD-HH-MM-SS`. The month,
/// day, hour, minute and second fields are always two zero-padded digits and
/// the separators are fixed, which is the shape stated; beyond that the
/// result depends on the clock, so nothing more is stated.
#[verifier::external_body]
fn now_formatted() -> (r: String)
    ensures
        clock_tail_shape(r@),
{
    chrono::Local::now().format("%Y-%m-%d-%H-%M-%S").to_string()
}

/// The identifier for an entry created now: the current local timestamp.
pub fn current_string() -> (r: String)
    ensures
        clock_tail_shape(r@),
{
    now_formatted()
}

} // verus!

//! Scheduling control: what the recurring registration uses and how a
//! delivered callback is recognized. The host's scheduler itself is an
//! external collaborator; these decisions are the pipeline's own.

use vstd::prelude::*;

verus! {

/// The payload under which the recurring scan is registered, and which a
/// delivered callback must carry to trigger a scan.
pub fn scan_payload() -> (payload: String)
    ensures
        payload@ == "inspect"@,
{
    "inspect".to_owned()
}

/// The schedule expression to register: the configured `cron` option when
/// the host has one, else the documented default of one run a day.
pub fn cron_or_default(configured: Option<String>) -> (cron: String)
    ensures
        match configured {
            Some(expression) => cron@ == expression@,
            None => cron@ == "@every 24h"@,
        },
{
    match configured {
        Some(expression) => expression,
        None => "@every 24h".to_owned(),
    }
}

/// Whether a delivered scheduler callback triggers a scan: exactly the
/// payload that the registration used does; any other payload is ignored.
pub fn payload_triggers_scan(payload: &String) -> (triggers: bool)
    ensures
        triggers == (payload@ == "inspect"@),
{
    let expected = "inspect".to_owned();
    payload.eq(&expected)
}

} // verus!

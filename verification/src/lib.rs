//! A workflow execution engine with its execution-history subsystem: graph
//! linearization, per-node dispatch, variable resolution, cooperative
//! cancellation and lifecycle events, plus compressed snapshot capture,
//! multi-criteria retention, and timeline reconstruction.

pub mod compress;
pub mod dispatch;
pub mod engine;
pub mod history;
pub mod json;
pub mod listing;
pub mod models;
pub mod registry;
pub mod resolve;
pub mod retention;
pub mod schedule;
pub mod snapcodec;
pub mod storage;
pub mod store;
pub mod text;
pub mod timeline;
pub mod value;
pub mod workflow;

use vstd::prelude::*;

verus! {

/// Masks an API key, keeping only its last four characters visible.
/// Keys shorter than four characters are masked entirely.
pub fn generate_key_hint(api_key: &str) -> (hint: String)
    ensures
        api_key@.len() >= 4 ==> hint@ == seq!['*', '*', '*', '*'] + api_key@.subrange(
            api_key@.len() - 4,
            api_key@.len() as int,
        ),
        api_key@.len() < 4 ==> hint@ == seq!['*', '*', '*', '*'],
{
    let n = api_key.unicode_len();
    let mut hint = String::new();
    hint.append("****");
    proof {
        reveal_strlit("****");
        assert(hint@ =~= seq!['*', '*', '*', '*']);
    }
    if n >= 4 {
        let tail = api_key.substring_char(n - 4, n);
        hint.append(tail);
    }
    proof {
        if api_key@.len() >= 4 {
            assert(hint@ =~= seq!['*', '*', '*', '*'] + api_key@.subrange(
                api_key@.len() - 4,
                api_key@.len() as int,
            ));
        }
    }
    hint
}

} // verus!

//! The live-reload broadcaster's decision logic.
//!
//! The broadcaster subscribes to the invalidation chain behind the cache.
//! For every event it observes it decides: does the event's path match the
//! configured trigger pattern? If so, one fixed text message is pushed to
//! every connected client; otherwise the event is ignored. The websocket
//! listener, the client set and the sends live in the application.

use vstd::prelude::*;
use vstd::string::StrSliceExecFns;
use vstd::string::StringSliceAdditionalSpecFns;
use crate::event::InvalidationEvent;
use crate::path::{split_path, split_components, views, bytes_eq};

verus! {

/// A path matches a trigger pattern when the pattern's components are a
/// suffix of the path's components, as filesystem paths compare their ends:
/// `js/main.js` ends with `main.js`, but `xmain.js` does not.
pub open spec fn spec_matches_trigger(path: Seq<u8>, pattern: Seq<u8>) -> bool {
    split_path(pattern).is_suffix_of(split_path(path))
}

/// Decide whether `path` ends with the trigger `pattern`, component-wise.
pub fn path_matches_trigger(path: &Vec<u8>, pattern: &Vec<u8>) -> (r: bool)
    ensures
        r == spec_matches_trigger(path@, pattern@),
{
    let pc = split_components(path);
    let tc = split_components(pattern);
    let ghost pv = views(pc@);
    let ghost tv = views(tc@);
    if tc.len() > pc.len() {
        proof {
            assert(tv.len() > pv.len());
        }
        return false;
    }
    let off = pc.len() - tc.len();
    let mut k: usize = 0;
    while k < tc.len()
        invariant
            k <= tc.len(),
            tc.len() <= pc.len(),
            off == pc.len() - tc.len(),
            pv == views(pc@),
            tv == views(tc@),
            pv == split_path(path@),
            tv == split_path(pattern@),
            forall|j: int| 0 <= j < k ==> tv[j] == pv[off + j],
        decreases tc.len() - k,
    {
        if !bytes_eq(&pc[off + k], &tc[k]) {
            proof {
                assert(tv[k as int] != pv[off + k]);
                assert(!tv.is_suffix_of(pv)) by {
                    if tv.is_suffix_of(pv) {
                        assert(tv =~= pv.subrange(
                            pv.len() - tv.len(),
                            pv.len() as int,
                        ));
                        assert(tv[k as int] == pv[off + k]);
                    }
                }
            }
            return false;
        }
        k = k + 1;
    }
    proof {
        assert(tv =~= pv.subrange(pv.len() - tv.len(), pv.len() as int));
    }
    true
}

/// Whether an observed invalidation causes a reload notice: any path the
/// event names matches the trigger. A rename triggers on either end, as its
/// two paths both changed.
pub fn event_triggers_reload(ev: &InvalidationEvent, pattern: &Vec<u8>) -> (r: bool)
    ensures
        r == match *ev {
            InvalidationEvent::Created(p) => spec_matches_trigger(p@, pattern@),
            InvalidationEvent::Modified(p) => spec_matches_trigger(p@, pattern@),
            InvalidationEvent::Removed(p) => spec_matches_trigger(p@, pattern@),
            InvalidationEvent::Renamed(o, n) => spec_matches_trigger(o@, pattern@)
                || spec_matches_trigger(n@, pattern@),
        },
{
    match ev {
        InvalidationEvent::Created(p) => path_matches_trigger(p, pattern),
        InvalidationEvent::Modified(p) => path_matches_trigger(p, pattern),
        InvalidationEvent::Removed(p) => path_matches_trigger(p, pattern),
        InvalidationEvent::Renamed(o, n) => path_matches_trigger(o, pattern)
            || path_matches_trigger(n, pattern),
    }
}

/// The one message ever pushed to reload clients.
pub fn reload_message() -> (r: &'static str)
    ensures
        r@ == "Reload"@,
{
    "Reload"
}

/// The websocket subprotocol the reload listener accepts.
pub fn reload_subprotocol() -> (r: &'static str)
    ensures
        r@ == "selenologist-minimal-reloader"@,
{
    "selenologist-minimal-reloader"
}

/// The default trigger pattern: a reload is pushed when `main.js` changes.
pub fn default_trigger() -> (r: Vec<u8>)
    ensures
        r@ == "main.js".spec_bytes(),
{
    "main.js".as_bytes_vec()
}

} // verus!

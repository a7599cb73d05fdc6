//! The search through candidate clips for extractions of a word: which clip's
//! captions to read next, which caption hit to try, and when to stop. The reading,
//! downloading and aligning are done by the caller, who reports back each outcome.

use vstd::prelude::*;

verus! {

/// Where the search stands.
#[derive(Clone, Copy, PartialEq, Eq, Structural, Debug)]
pub enum ScanState {
    /// Waiting for the caption hits of clip `clip`.
    AwaitCaptions { clip: usize, collected: usize },
    /// Waiting for the outcome of trying hit `hit` (of `hits`) of clip `clip`.
    AwaitHit { clip: usize, hits: usize, hit: usize, collected: usize },
    /// Finished, with `collected` extractions.
    Done { collected: usize },
}

/// What the caller should do next.
#[derive(Clone, Copy, PartialEq, Eq, Structural, Debug)]
pub enum ScanAction {
    /// Read the captions of this clip and report how many hits they hold.
    ReadCaptions(usize),
    /// Fetch, align and extract the word around this hit of this clip.
    TryHit { clip: usize, hit: usize },
    /// Stop.
    Finish,
}

/// What the caller reports.
#[derive(Clone, Copy, PartialEq, Eq, Structural, Debug)]
pub enum ScanEvent {
    /// The captions held this many hits (zero when they could not be read).
    Captions(usize),
    /// The hit did not give an extraction.
    HitFailed,
    /// The hit gave an extraction.
    HitExtracted,
}

/// Moving on to clip `clip`: finished once `quota` extractions are collected or the
/// clips run out, otherwise read that clip's captions.
pub open spec fn move_to_clip(num_clips: usize, quota: usize, clip: int, collected: int) -> (
    ScanState,
    ScanAction,
) {
    if collected >= quota || clip >= num_clips {
        (ScanState::Done { collected: collected as usize }, ScanAction::Finish)
    } else {
        (
            ScanState::AwaitCaptions { clip: clip as usize, collected: collected as usize },
            ScanAction::ReadCaptions(clip as usize),
        )
    }
}

/// The pending action of a state.
pub open spec fn pending_action(s: ScanState) -> ScanAction {
    match s {
        ScanState::AwaitCaptions { clip, .. } => ScanAction::ReadCaptions(clip),
        ScanState::AwaitHit { clip, hit, .. } => ScanAction::TryHit { clip, hit },
        ScanState::Done { .. } => ScanAction::Finish,
    }
}

/// The event answers the state's pending action.
pub open spec fn event_fits(s: ScanState, e: ScanEvent) -> bool {
    match (s, e) {
        (ScanState::AwaitCaptions { .. }, ScanEvent::Captions(_)) => true,
        (ScanState::AwaitHit { .. }, ScanEvent::HitFailed) => true,
        (ScanState::AwaitHit { .. }, ScanEvent::HitExtracted) => true,
        _ => false,
    }
}

/// One step of the search. Clips with no hits are skipped; the hits of a clip are
/// tried in order until one gives an extraction, which ends that clip (one
/// extraction per clip); a clip whose hits all fail is left behind. An event that
/// does not answer the pending action changes nothing.
pub open spec fn scan_next(num_clips: usize, quota: usize, s: ScanState, e: ScanEvent) -> (
    ScanState,
    ScanAction,
) {
    match (s, e) {
        (ScanState::AwaitCaptions { clip, collected }, ScanEvent::Captions(n)) => if n == 0 {
            move_to_clip(num_clips, quota, clip + 1, collected as int)
        } else {
            (
                ScanState::AwaitHit { clip, hits: n, hit: 0, collected },
                ScanAction::TryHit { clip, hit: 0 },
            )
        },
        (ScanState::AwaitHit { clip, hits, hit, collected }, ScanEvent::HitExtracted) => move_to_clip(
            num_clips,
            quota,
            clip + 1,
            collected + 1,
        ),
        (ScanState::AwaitHit { clip, hits, hit, collected }, ScanEvent::HitFailed) => if hit + 1
            < hits {
            (
                ScanState::AwaitHit { clip, hits, hit: (hit + 1) as usize, collected },
                ScanAction::TryHit { clip, hit: (hit + 1) as usize },
            )
        } else {
            move_to_clip(num_clips, quota, clip + 1, collected as int)
        },
        _ => (s, pending_action(s)),
    }
}

/// The states the search can be in: a clip being worked on is a real clip, the
/// collected count is below the quota while working and never above it, and a hit
/// being tried is one of the clip's hits.
pub open spec fn scan_inv(num_clips: usize, quota: usize, s: ScanState) -> bool {
    match s {
        ScanState::AwaitCaptions { clip, collected } => clip < num_clips && collected < quota,
        ScanState::AwaitHit { clip, hits, hit, collected } => clip < num_clips && collected < quota
            && hit < hits,
        ScanState::Done { collected } => collected <= quota,
    }
}

fn move_to_clip_exec(num_clips: usize, quota: usize, clip: usize, collected: usize) -> (r: (
    ScanState,
    ScanAction,
))
    ensures
        r == move_to_clip(num_clips, quota, clip as int, collected as int),
{
    if collected >= quota || clip >= num_clips {
        (ScanState::Done { collected }, ScanAction::Finish)
    } else {
        (ScanState::AwaitCaptions { clip, collected }, ScanAction::ReadCaptions(clip))
    }
}

/// Starts a search through `num_clips` clips for up to `quota` extractions.
pub fn scan_start(num_clips: usize, quota: usize) -> (r: (ScanState, ScanAction))
    ensures
        r == move_to_clip(num_clips, quota, 0, 0),
        scan_inv(num_clips, quota, r.0),
        r.1 == pending_action(r.0),
{
    move_to_clip_exec(num_clips, quota, 0, 0)
}

/// Advances the search by the outcome of its pending action.
pub fn scan_step(num_clips: usize, quota: usize, s: ScanState, e: ScanEvent) -> (r: (
    ScanState,
    ScanAction,
))
    requires
        scan_inv(num_clips, quota, s),
    ensures
        r == scan_next(num_clips, quota, s, e),
        scan_inv(num_clips, quota, r.0),
        r.1 == pending_action(r.0),
        s matches ScanState::AwaitHit { clip, hits, hit, collected } ==> (e is HitFailed && hit + 1
            < hits ==> r == (
            ScanState::AwaitHit { clip, hits, hit: (hit + 1) as usize, collected },
            ScanAction::TryHit { clip, hit: (hit + 1) as usize },
        )),
{
    match (s, e) {
        (ScanState::AwaitCaptions { clip, collected }, ScanEvent::Captions(n)) => if n == 0 {
            move_to_clip_exec(num_clips, quota, clip + 1, collected)
        } else {
            (
                ScanState::AwaitHit { clip, hits: n, hit: 0, collected },
                ScanAction::TryHit { clip, hit: 0 },
            )
        },
        (ScanState::AwaitHit { clip, hits, hit, collected }, ScanEvent::HitExtracted) => {
            move_to_clip_exec(num_clips, quota, clip + 1, collected + 1)
        },
        (ScanState::AwaitHit { clip, hits, hit, collected }, ScanEvent::HitFailed) => {
            if hit + 1 < hits {
                (
                    ScanState::AwaitHit { clip, hits, hit: hit + 1, collected },
                    ScanAction::TryHit { clip, hit: hit + 1 },
                )
            } else {
                move_to_clip_exec(num_clips, quota, clip + 1, collected)
            }
        },
        (ScanState::AwaitCaptions { clip, collected }, _) => (s, ScanAction::ReadCaptions(clip)),
        (ScanState::AwaitHit { clip, hit, .. }, _) => (s, ScanAction::TryHit { clip, hit }),
        (ScanState::Done { .. }, _) => (s, ScanAction::Finish),
    }
}

/// The clip a state works on (the number of clips once finished).
pub open spec fn current_clip(num_clips: usize, s: ScanState) -> int {
    match s {
        ScanState::AwaitCaptions { clip, .. } => clip as int,
        ScanState::AwaitHit { clip, .. } => clip as int,
        ScanState::Done { .. } => num_clips as int,
    }
}

/// The extractions collected so far.
pub open spec fn collected_of(s: ScanState) -> int {
    match s {
        ScanState::AwaitCaptions { collected, .. } => collected as int,
        ScanState::AwaitHit { collected, .. } => collected as int,
        ScanState::Done { collected } => collected as int,
    }
}

/// Every answered action makes progress: the search finishes, moves to a later clip,
/// or (on a failed hit) tries a later hit of the same clip; an extraction always
/// leaves its clip, so each clip gives at most one; the count grows by exactly one
/// on an extraction and stays the same otherwise, never passing the quota.
pub proof fn lemma_scan_progress(num_clips: usize, quota: usize, s: ScanState, e: ScanEvent)
    requires
        scan_inv(num_clips, quota, s),
        event_fits(s, e),
    ensures
        ({
            let (t, a) = scan_next(num_clips, quota, s, e);
            &&& scan_inv(num_clips, quota, t)
            &&& (t is Done || current_clip(num_clips, t) > current_clip(num_clips, s) || (
            current_clip(num_clips, t) == current_clip(num_clips, s) && t is AwaitHit && (
            s is AwaitCaptions || t->hit > s->hit)))
            &&& (e is HitExtracted ==> current_clip(num_clips, t) > current_clip(num_clips, s)
                && collected_of(t) == collected_of(s) + 1)
            &&& (!(e is HitExtracted) ==> collected_of(t) == collected_of(s))
            &&& collected_of(t) <= quota
        }),
{
}

/// The search stops exactly when the quota is met or the clips have run out.
pub proof fn lemma_scan_stops(num_clips: usize, quota: usize, clip: int, collected: int)
    requires
        0 <= clip,
        0 <= collected <= quota,
    ensures
        move_to_clip(num_clips, quota, clip, collected).1 is Finish <==> (collected >= quota || clip
            >= num_clips),
{
}

/// Every caption hit of a clip is tried before the search leaves it: when a hit
/// fails and the clip has further hits, the next hit of the same clip is tried;
/// only when the last hit fails does the search move on to the next clip (or
/// finish).
pub proof fn lemma_scan_tries_every_hit(
    num_clips: usize,
    quota: usize,
    clip: usize,
    hits: usize,
    hit: usize,
    collected: usize,
)
    requires
        clip < num_clips,
        hit < hits,
    ensures
        hit + 1 < hits ==> scan_next(
            num_clips,
            quota,
            ScanState::AwaitHit { clip, hits, hit, collected },
            ScanEvent::HitFailed,
        ) == (
            ScanState::AwaitHit { clip, hits, hit: (hit + 1) as usize, collected },
            ScanAction::TryHit { clip, hit: (hit + 1) as usize },
        ),
        hit + 1 == hits ==> scan_next(
            num_clips,
            quota,
            ScanState::AwaitHit { clip, hits, hit, collected },
            ScanEvent::HitFailed,
        ).1 != (ScanAction::TryHit { clip, hit: (hit + 1) as usize }) && current_clip(
            num_clips,
            scan_next(
                num_clips,
                quota,
                ScanState::AwaitHit { clip, hits, hit, collected },
                ScanEvent::HitFailed,
            ).0,
        ) > clip,
{
}

} // verus!

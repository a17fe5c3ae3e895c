use vstd::prelude::*;
use crate::consensus::ConsensusSegment;
use crate::detect::{OUTRO_SECONDS, Window};

verus! {

/// One range of an episode's own timeline that a player may skip.
#[derive(Clone, Copy, Debug, PartialEq, Eq, Structural)]
pub struct SkipRange {
    pub start_ms: u64,
    pub end_ms: u64,
    pub kind: Window,
}

/// Length of the outro window in milliseconds.
pub open spec fn outro_ms() -> int {
    OUTRO_SECONDS * 1000
}

/// A time relative to a window, placed on an episode of `duration_ms`: intro
/// times count from the start; an outro time is its distance from the end
/// of the window, taken back from the end of the episode (never below 0).
pub open spec fn episode_time(w: Window, rel_ms: int, duration_ms: int) -> int {
    match w {
        Window::Intro => rel_ms,
        Window::Outro => {
            let back = if rel_ms <= outro_ms() { outro_ms() - rel_ms } else { 0 };
            if duration_ms >= back { duration_ms - back } else { 0 }
        },
    }
}

/// Places a window-relative time on an episode's own timeline.
pub fn to_episode_time(w: Window, rel_ms: u64, duration_ms: u64) -> (r: u64)
    ensures
        r as int == episode_time(w, rel_ms as int, duration_ms as int),
{
    match w {
        Window::Intro => rel_ms,
        Window::Outro => {
            let window_ms: u64 = OUTRO_SECONDS * 1000;
            let back: u64 = if rel_ms <= window_ms { window_ms - rel_ms } else { 0 };
            if duration_ms >= back { duration_ms - back } else { 0 }
        },
    }
}

/// The skip range that a consensus segment of window `w` gives an episode.
pub open spec fn range_for(w: Window, s: ConsensusSegment, duration_ms: int) -> SkipRange {
    SkipRange {
        start_ms: episode_time(w, s.start_ms as int, duration_ms) as u64,
        end_ms: episode_time(w, s.end_ms as int, duration_ms) as u64,
        kind: w,
    }
}

/// The skip ranges of one episode: the intro's, then the outro's, for each
/// window whose group has a consensus segment.
pub open spec fn ranges_for(intro: Option<ConsensusSegment>, outro: Option<ConsensusSegment>, duration_ms: int) -> Seq<SkipRange> {
    let a = match intro {
        Some(s) => seq![range_for(Window::Intro, s, duration_ms)],
        None => Seq::empty(),
    };
    let b = match outro {
        Some(s) => seq![range_for(Window::Outro, s, duration_ms)],
        None => Seq::empty(),
    };
    a + b
}

/// Maps the group's consensus segments onto one episode of `duration_ms`.
/// Every episode of the group gets them, whether or not its own candidates
/// took part.
pub fn episode_ranges(intro: Option<ConsensusSegment>, outro: Option<ConsensusSegment>, duration_ms: u64) -> (r: Vec<SkipRange>)
    ensures
        r@ == ranges_for(intro, outro, duration_ms as int),
{
    let mut out: Vec<SkipRange> = Vec::new();
    if let Some(s) = intro {
        out.push(SkipRange {
            start_ms: to_episode_time(Window::Intro, s.start_ms, duration_ms),
            end_ms: to_episode_time(Window::Intro, s.end_ms, duration_ms),
            kind: Window::Intro,
        });
    }
    if let Some(s) = outro {
        out.push(SkipRange {
            start_ms: to_episode_time(Window::Outro, s.start_ms, duration_ms),
            end_ms: to_episode_time(Window::Outro, s.end_ms, duration_ms),
            kind: Window::Outro,
        });
    }
    assert(out@ =~= ranges_for(intro, outro, duration_ms as int));
    out
}

/// An intro consensus gives every episode of the group the same skip range,
/// whatever its length: the boundary comes from the group, not the episode.
pub proof fn lemma_intro_range_is_shared(s: ConsensusSegment, d1: int, d2: int)
    ensures
        ranges_for(Some(s), None, d1) == ranges_for(Some(s), None, d2),
        ranges_for(Some(s), None, d1) == seq![SkipRange { start_ms: s.start_ms, end_ms: s.end_ms, kind: Window::Intro }],
{
    assert(ranges_for(Some(s), None, d1) =~= ranges_for(Some(s), None, d2));
    assert(ranges_for(Some(s), None, d1) =~= seq![SkipRange { start_ms: s.start_ms, end_ms: s.end_ms, kind: Window::Intro }]);
}

/// The decimal digits of `n`, most significant first.
pub open spec fn decimal(n: nat) -> Seq<u8>
    decreases n,
{
    if n < 10 {
        seq![(48 + n) as u8]
    } else {
        decimal(n / 10) + seq![(48 + n % 10) as u8]
    }
}

/// A time in milliseconds written as seconds with three decimals.
pub open spec fn seconds_text(ms: u64) -> Seq<u8> {
    let f = (ms % 1000) as nat;
    decimal((ms / 1000) as nat) + seq![46u8, (48 + f / 100) as u8, (48 + (f / 10) % 10) as u8, (48 + f % 10) as u8]
}

/// The word for a window: `intro` or `outro`.
pub open spec fn kind_text(w: Window) -> Seq<u8> {
    match w {
        Window::Intro => seq![105u8, 110u8, 116u8, 114u8, 111u8],
        Window::Outro => seq![111u8, 117u8, 116u8, 114u8, 111u8],
    }
}

/// One line of a skip-range artifact: start, end and kind, separated by
/// spaces.
pub open spec fn range_line(r: SkipRange) -> Seq<u8> {
    seconds_text(r.start_ms) + seq![32u8] + seconds_text(r.end_ms) + seq![32u8] + kind_text(r.kind) + seq![10u8]
}

/// The bytes of a skip-range artifact: one line per range, in order.
pub open spec fn edl_text(rs: Seq<SkipRange>) -> Seq<u8>
    decreases rs.len(),
{
    if rs.len() == 0 {
        Seq::empty()
    } else {
        edl_text(rs.drop_last()) + range_line(rs.last())
    }
}

/// Writing the same ranges twice gives the same bytes both times.
pub proof fn lemma_edl_idempotent(a: Seq<SkipRange>, b: Seq<SkipRange>)
    requires
        a == b,
    ensures
        edl_text(a) == edl_text(b),
{
}

fn push_decimal(out: &mut Vec<u8>, n: u64)
    ensures
        final(out)@ == old(out)@ + decimal(n as nat),
    decreases n,
{
    if n >= 10 {
        push_decimal(out, n / 10);
    }
    out.push(48u8 + (n % 10) as u8);
    proof {
        if n >= 10 {
            assert(final(out)@ =~= old(out)@ + decimal(n as nat));
        } else {
            assert(final(out)@ =~= old(out)@ + decimal(n as nat));
        }
    }
}

fn push_seconds(out: &mut Vec<u8>, ms: u64)
    ensures
        final(out)@ == old(out)@ + seconds_text(ms),
{
    push_decimal(out, ms / 1000);
    let f = ms % 1000;
    out.push(46u8);
    out.push(48u8 + (f / 100) as u8);
    out.push(48u8 + ((f / 10) % 10) as u8);
    out.push(48u8 + (f % 10) as u8);
    assert(final(out)@ =~= old(out)@ + seconds_text(ms));
}

fn push_line(out: &mut Vec<u8>, r: &SkipRange)
    ensures
        final(out)@ == old(out)@ + range_line(*r),
{
    push_seconds(out, r.start_ms);
    out.push(32u8);
    push_seconds(out, r.end_ms);
    out.push(32u8);
    match r.kind {
        Window::Intro => {
            out.push(105u8);
            out.push(110u8);
        },
        Window::Outro => {
            out.push(111u8);
            out.push(117u8);
        },
    }
    out.push(116u8);
    out.push(114u8);
    out.push(111u8);
    out.push(10u8);
    assert(final(out)@ =~= old(out)@ + range_line(*r));
}

/// The bytes of the skip-range artifact for `ranges`.
pub fn render_edl(ranges: &Vec<SkipRange>) -> (r: Vec<u8>)
    ensures
        r@ == edl_text(ranges@),
{
    let mut out: Vec<u8> = Vec::new();
    let mut i: usize = 0;
    while i < ranges.len()
        invariant
            i <= ranges@.len(),
            out@ == edl_text(ranges@.subrange(0, i as int)),
        decreases ranges@.len() - i,
    {
        push_line(&mut out, &ranges[i]);
        assert(ranges@.subrange(0, i as int + 1).drop_last() =~= ranges@.subrange(0, i as int));
        i = i + 1;
    }
    assert(ranges@.subrange(0, ranges@.len() as int) =~= ranges@);
    out
}

} // verus!

use vstd::prelude::*;
use crate::report::{as_ints, parse_report, report_times};

verus! {

/// The two analysis windows of an episode.
#[derive(Clone, Copy, Debug, PartialEq, Eq, Structural)]
pub enum Window {
    /// The first `INTRO_SECONDS` of the episode.
    Intro,
    /// The last `OUTRO_SECONDS` of the episode.
    Outro,
}

/// Length of the intro window, from the episode's start, in seconds.
pub const INTRO_SECONDS: u64 = 360;

/// Length of the outro window, before the episode's end, in seconds.
pub const OUTRO_SECONDS: u64 = 300;

/// Why one episode's window yields no cuts.
#[derive(Clone, Copy, Debug, PartialEq, Eq, Structural)]
pub enum DetectError {
    /// A marker's time does not fit in 64 bits of milliseconds.
    BadTimestamp,
    /// The report holds another number of markers than there are images.
    CountMismatch { markers: usize, images: usize },
}

/// One detected cut: its time in milliseconds from the window's start, and
/// the still image taken there.
pub struct Cut {
    pub time_ms: u64,
    pub image: Vec<u8>,
}

/// `cuts` pairs the n-th time with the n-th image, one for one.
pub open spec fn pairs_up(cuts: Seq<Cut>, times: Seq<int>, images: Seq<Vec<u8>>) -> bool {
    &&& cuts.len() == times.len()
    &&& cuts.len() == images.len()
    &&& forall|i: int| 0 <= i < cuts.len() ==> (#[trigger] cuts[i]).time_ms as int == times[i] && cuts[i].image@ == images[i]@
}

/// Pairs the n-th cut time with the n-th image; a count mismatch is an error
/// and yields no pairs at all.
pub fn pair_cuts(times: &Vec<u64>, images: Vec<Vec<u8>>) -> (r: Result<Vec<Cut>, DetectError>)
    ensures
        match r {
            Ok(cuts) => times@.len() == images@.len() && pairs_up(cuts@, as_ints(times@), images@),
            Err(e) => times@.len() != images@.len() && e == (DetectError::CountMismatch { markers: times.len(), images: images.len() }),
        },
{
    if times.len() != images.len() {
        return Err(DetectError::CountMismatch { markers: times.len(), images: images.len() });
    }
    let ghost orig = images@;
    let mut rest = images;
    let mut out: Vec<Cut> = Vec::new();
    while rest.len() > 0
        invariant
            times@.len() == orig.len(),
            out@.len() + rest@.len() == orig.len(),
            rest@ == orig.subrange(out@.len() as int, orig.len() as int),
            forall|i: int| 0 <= i < out@.len() ==> (#[trigger] out@[i]).time_ms == times@[i] && out@[i].image@ == orig[i]@,
        decreases rest@.len(),
    {
        let image = rest.remove(0);
        let k = out.len();
        out.push(Cut { time_ms: times[k], image });
        proof {
            assert(rest@ =~= orig.subrange(out@.len() as int, orig.len() as int));
        }
    }
    Ok(out)
}

/// The outcome of one episode's window: the cut markers of the decoder's
/// report paired one for one with the still images, in order. A marker
/// whose time does not fit, or a count of markers other than that of the
/// images, is an error and yields no cuts. No cuts at all is a valid outcome.
pub fn detect_cuts(report: &[u8], images: Vec<Vec<u8>>) -> (r: Result<Vec<Cut>, DetectError>)
    ensures
        (r == Err::<Vec<Cut>, DetectError>(DetectError::BadTimestamp)) <==> exists|k: int|
            0 <= k < report_times(report@).len() && report_times(report@)[k] > u64::MAX,
        r is Ok ==> pairs_up(r->Ok_0@, report_times(report@), images@),
        r is Err && r->Err_0 is CountMismatch ==> {
            &&& r->Err_0->markers as int == report_times(report@).len()
            &&& r->Err_0->images as int == images@.len()
            &&& r->Err_0->markers != r->Err_0->images
        },
{
    match parse_report(report) {
        None => Err(DetectError::BadTimestamp),
        Some(times) => {
            proof {
                assert forall|k: int| 0 <= k < report_times(report@).len() implies report_times(report@)[k] <= u64::MAX by {
                    assert(report_times(report@)[k] == as_ints(times@)[k]);
                }
            }
            match pair_cuts(&times, images) {
                Ok(cuts) => {
                    assert(as_ints(times@) == report_times(report@));
                    Ok(cuts)
                },
                Err(e) => {
                    assert(as_ints(times@).len() == times@.len());
                    assert(as_ints(times@) == report_times(report@));
                    Err(e)
                },
            }
        },
    }
}

} // verus!

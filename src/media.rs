use vstd::prelude::*;

verus! {

/// Lower-cases an ASCII letter; every other byte is kept.
pub open spec fn ascii_lower(b: u8) -> u8 {
    if 65 <= b && b <= 90 {
        (b + 32) as u8
    } else {
        b
    }
}

/// Index of the last `.` among the first `n` bytes of a file name, or -1.
pub open spec fn last_dot_within(name: Seq<u8>, n: int) -> int
    decreases n,
{
    if n <= 0 {
        -1
    } else if name[n - 1] == 46u8 {
        n - 1
    } else {
        last_dot_within(name, n - 1)
    }
}

/// Where a file name's extension separator stands: the last `.`, unless that
/// dot opens the name (as in `.hidden`), which then has no extension.
pub open spec fn ext_dot(name: Seq<u8>) -> Option<int> {
    let p = last_dot_within(name, name.len() as int);
    if p > 0 {
        Some(p)
    } else {
        None
    }
}

/// The bytes after the extension separator, if there is one.
pub open spec fn extension_of(name: Seq<u8>) -> Option<Seq<u8>> {
    match ext_dot(name) {
        Some(p) => Some(name.subrange(p + 1, name.len() as int)),
        None => None,
    }
}

/// The file name without its extension and separator.
pub open spec fn stem_of(name: Seq<u8>) -> Seq<u8> {
    match ext_dot(name) {
        Some(p) => name.subrange(0, p),
        None => name,
    }
}

/// The extension given to skip-range artifacts: `edl`.
pub open spec fn output_ext() -> Seq<u8> {
    seq![101u8, 100u8, 108u8]
}

/// Lower-case forms of the recognised video extensions:
/// mp4, mkv, avi, mov and wmv.
pub open spec fn video_exts() -> Seq<Seq<u8>> {
    seq![
        seq![109u8, 112u8, 52u8],
        seq![109u8, 107u8, 118u8],
        seq![97u8, 118u8, 105u8],
        seq![109u8, 111u8, 118u8],
        seq![119u8, 109u8, 118u8],
    ]
}

/// An extension is a video extension when, lower-cased, it is one of
/// `video_exts()`.
pub open spec fn is_video_ext(ext: Seq<u8>) -> bool {
    video_exts().contains(ext.map_values(|b: u8| ascii_lower(b)))
}

/// A file name is a video when it has an extension and that is a video
/// extension (compared without regard to ASCII case).
pub open spec fn is_video_name(name: Seq<u8>) -> bool {
    match extension_of(name) {
        Some(e) => is_video_ext(e),
        None => false,
    }
}

/// The name of the skip-range artifact that sits beside a video: its stem
/// followed by `.edl`.
pub open spec fn output_name(name: Seq<u8>) -> Seq<u8> {
    stem_of(name) + seq![46u8] + output_ext()
}

/// Lower-cases an ASCII letter; every other byte is kept.
pub fn to_ascii_lower(b: u8) -> (r: u8)
    ensures
        r == ascii_lower(b),
{
    if 65 <= b && b <= 90 {
        b + 32
    } else {
        b
    }
}

/// Finds the extension separator of a file name.
pub fn find_ext_dot(name: &[u8]) -> (r: Option<usize>)
    ensures
        match r {
            Some(p) => ext_dot(name@) == Some(p as int) && 0 < p < name@.len(),
            None => ext_dot(name@).is_none(),
        },
{
    let mut i: usize = name.len();
    while i > 0
        invariant
            i <= name@.len(),
            last_dot_within(name@, name@.len() as int) == last_dot_within(name@, i as int),
        decreases i,
    {
        if name[i - 1] == 46u8 {
            if i - 1 > 0 {
                return Some(i - 1);
            } else {
                return None;
            }
        }
        i = i - 1;
    }
    None
}

/// Tells whether a file name names a video: its extension, ASCII case
/// ignored, is one of mp4, mkv, avi, mov or wmv.
pub fn is_video(name: &[u8]) -> (r: bool)
    ensures
        r == is_video_name(name@),
{
    match find_ext_dot(name) {
        None => false,
        Some(p) => {
            if name.len() - p != 4 {
                proof {
                    let e = name@.subrange(p + 1, name@.len() as int);
                    assert(e.map_values(|b: u8| ascii_lower(b)).len() != 3);
                    assert(!video_exts().contains(e.map_values(|b: u8| ascii_lower(b))));
                }
                return false;
            }
            let a = to_ascii_lower(name[p + 1]);
            let b = to_ascii_lower(name[p + 2]);
            let c = to_ascii_lower(name[p + 3]);
            let r = (a == 109u8 && b == 112u8 && c == 52u8) || (a == 109u8 && b == 107u8 && c
                == 118u8) || (a == 97u8 && b == 118u8 && c == 105u8) || (a == 109u8 && b == 111u8
                && c == 118u8) || (a == 119u8 && b == 109u8 && c == 118u8);
            proof {
                let e = name@.subrange(p + 1, name@.len() as int);
                let l = e.map_values(|b: u8| ascii_lower(b));
                assert(l =~= seq![a, b, c]);
                if r {
                    if a == 109u8 && b == 112u8 && c == 52u8 {
                        assert(video_exts()[0] == l);
                    } else if a == 109u8 && b == 107u8 {
                        assert(video_exts()[1] == l);
                    } else if a == 97u8 {
                        assert(video_exts()[2] == l);
                    } else if a == 109u8 {
                        assert(video_exts()[3] == l);
                    } else {
                        assert(video_exts()[4] == l);
                    }
                } else {
                    assert(!video_exts().contains(l)) by {
                        if video_exts().contains(l) {
                            let k = choose|k: int| 0 <= k < 5 && video_exts()[k] == l;
                            assert(video_exts()[k][0] == a);
                            assert(video_exts()[k][1] == b);
                            assert(video_exts()[k][2] == c);
                        }
                    }
                }
            }
            r
        },
    }
}

/// The name of the skip-range artifact beside the video named `name`: the
/// extension, if any, is replaced by `edl`.
pub fn output_name_for(name: &[u8]) -> (r: Vec<u8>)
    ensures
        r@ == output_name(name@),
{
    let end: usize = match find_ext_dot(name) {
        Some(p) => p,
        None => name.len(),
    };
    let mut out: Vec<u8> = Vec::new();
    let mut i: usize = 0;
    while i < end
        invariant
            end <= name@.len(),
            i <= end,
            stem_of(name@) == name@.subrange(0, end as int),
            out@ == name@.subrange(0, i as int),
        decreases end - i,
    {
        out.push(name[i]);
        i = i + 1;
        proof {
            assert(out@ =~= name@.subrange(0, i as int));
        }
    }
    out.push(46u8);
    out.push(101u8);
    out.push(100u8);
    out.push(108u8);
    proof {
        assert(out@ =~= output_name(name@));
    }
    out
}

/// Whether an episode must be analysed again: always when forced, and
/// otherwise only when its skip-range artifact does not exist yet.
pub fn needs_processing(force: bool, output_exists: bool) -> (r: bool)
    ensures
        r == (force || !output_exists),
        force ==> r,
{
    force || !output_exists
}

} // verus!

use vstd::prelude::*;
use crate::media::{is_video, is_video_name};

verus! {

/// One directory of the library tree and the names of the files that sit
/// directly in it.
pub struct DirListing {
    pub dir: Vec<u8>,
    pub names: Vec<Vec<u8>>,
}

/// A directory that directly holds two or more videos, with those videos'
/// file names in listing order.
pub struct EpisodeGroup {
    pub dir: Vec<u8>,
    pub episodes: Vec<Vec<u8>>,
}

impl View for EpisodeGroup {
    type V = (Seq<u8>, Seq<Seq<u8>>);

    open spec fn view(&self) -> (Seq<u8>, Seq<Seq<u8>>) {
        (self.dir@, self.episodes@.map_values(|e: Vec<u8>| e@))
    }
}

impl EpisodeGroup {
    /// The group's invariant: it holds at least two episodes, all videos.
    pub open spec fn wf(&self) -> bool {
        &&& self.episodes@.len() >= 2
        &&& forall|i: int| 0 <= i < self.episodes@.len() ==> is_video_name(#[trigger] self.episodes@[i]@)
    }
}

/// The video names among `names`, in their order.
pub open spec fn videos_in(names: Seq<Vec<u8>>) -> Seq<Seq<u8>>
    decreases names.len(),
{
    if names.len() == 0 {
        Seq::empty()
    } else {
        let prev = videos_in(names.drop_last());
        if is_video_name(names.last()@) {
            prev.push(names.last()@)
        } else {
            prev
        }
    }
}

/// A directory qualifies as an episode group when it holds two videos or more.
pub open spec fn qualifies(l: DirListing) -> bool {
    videos_in(l.names@).len() >= 2
}

/// The episode groups of a sequence of listings: one for each qualifying
/// directory, in listing order.
pub open spec fn groups_of(ls: Seq<DirListing>) -> Seq<(Seq<u8>, Seq<Seq<u8>>)>
    decreases ls.len(),
{
    if ls.len() == 0 {
        Seq::empty()
    } else {
        let prev = groups_of(ls.drop_last());
        if qualifies(ls.last()) {
            prev.push((ls.last().dir@, videos_in(ls.last().names@)))
        } else {
            prev
        }
    }
}

proof fn lemma_videos_are_videos(names: Seq<Vec<u8>>)
    ensures
        videos_in(names).len() <= names.len(),
        forall|i: int| 0 <= i < videos_in(names).len() ==> is_video_name(#[trigger] videos_in(names)[i]),
    decreases names.len(),
{
    if names.len() > 0 {
        lemma_videos_are_videos(names.drop_last());
    }
}

/// A directory appears among the episode groups if and only if some listing
/// of it holds two or more files with a video extension.
pub proof fn lemma_group_iff_two_videos(ls: Seq<DirListing>, d: Seq<u8>)
    ensures
        (exists|j: int| 0 <= j < groups_of(ls).len() && (#[trigger] groups_of(ls)[j]).0 == d)
            <==> (exists|i: int| 0 <= i < ls.len() && (#[trigger] ls[i]).dir@ == d && qualifies(ls[i])),
    decreases ls.len(),
{
    if ls.len() > 0 {
        let prev = ls.drop_last();
        lemma_group_iff_two_videos(prev, d);
        let n = ls.len() - 1;
        if exists|j: int| 0 <= j < groups_of(ls).len() && (#[trigger] groups_of(ls)[j]).0 == d {
            let j = choose|j: int| 0 <= j < groups_of(ls).len() && (#[trigger] groups_of(ls)[j]).0 == d;
            if j < groups_of(prev).len() {
                assert(groups_of(prev)[j] == groups_of(ls)[j]);
                let i = choose|i: int| 0 <= i < prev.len() && (#[trigger] prev[i]).dir@ == d && qualifies(prev[i]);
                assert(ls[i] == prev[i]);
            } else {
                assert(ls[n].dir@ == d && qualifies(ls[n]));
            }
        }
        if exists|i: int| 0 <= i < ls.len() && (#[trigger] ls[i]).dir@ == d && qualifies(ls[i]) {
            let i = choose|i: int| 0 <= i < ls.len() && (#[trigger] ls[i]).dir@ == d && qualifies(ls[i]);
            if i < n {
                assert(prev[i] == ls[i]);
                let j = choose|j: int| 0 <= j < groups_of(prev).len() && (#[trigger] groups_of(prev)[j]).0 == d;
                assert(groups_of(ls)[j] == groups_of(prev)[j]);
            } else {
                let j = groups_of(prev).len() as int;
                assert(groups_of(ls)[j].0 == d);
            }
        }
    }
}

fn copy_bytes(b: &Vec<u8>) -> (r: Vec<u8>)
    ensures
        r@ == b@,
{
    let mut out: Vec<u8> = Vec::new();
    let mut i: usize = 0;
    while i < b.len()
        invariant
            i <= b@.len(),
            out@ == b@.subrange(0, i as int),
        decreases b@.len() - i,
    {
        out.push(b[i]);
        i = i + 1;
        proof {
            assert(out@ =~= b@.subrange(0, i as int));
        }
    }
    proof {
        assert(out@ =~= b@);
    }
    out
}

/// The video names that sit directly in one directory, in listing order.
pub fn video_names(names: &Vec<Vec<u8>>) -> (r: Vec<Vec<u8>>)
    ensures
        r@.map_values(|e: Vec<u8>| e@) == videos_in(names@),
{
    let mut out: Vec<Vec<u8>> = Vec::new();
    let mut i: usize = 0;
    while i < names.len()
        invariant
            i <= names@.len(),
            out@.map_values(|e: Vec<u8>| e@) == videos_in(names@.subrange(0, i as int)),
        decreases names@.len() - i,
    {
        let ghost before = out@;
        assert(names@.subrange(0, i as int + 1).drop_last() =~= names@.subrange(0, i as int));
        if is_video(names[i].as_slice()) {
            let c = copy_bytes(&names[i]);
            out.push(c);
            assert(out@.map_values(|e: Vec<u8>| e@) =~= before.map_values(|e: Vec<u8>| e@).push(c@));
        }
        i = i + 1;
    }
    assert(names@.subrange(0, names@.len() as int) =~= names@);
    out
}

/// The episode group of one directory: `Some` exactly when it directly holds
/// two or more videos.
pub fn group_of(listing: &DirListing) -> (r: Option<EpisodeGroup>)
    ensures
        qualifies(*listing) <==> r.is_some(),
        match r {
            Some(g) => g@ == (listing.dir@, videos_in(listing.names@)) && g.wf(),
            None => true,
        },
{
    let videos = video_names(&listing.names);
    proof {
        assert(videos@.len() == videos@.map_values(|e: Vec<u8>| e@).len());
    }
    if videos.len() >= 2 {
        let g = EpisodeGroup { dir: copy_bytes(&listing.dir), episodes: videos };
        proof {
            lemma_videos_are_videos(listing.names@);
            assert forall|i: int| 0 <= i < g.episodes@.len() implies is_video_name(#[trigger] g.episodes@[i]@) by {
                assert(g.episodes@.map_values(|e: Vec<u8>| e@)[i] == g.episodes@[i]@);
            }
        }
        Some(g)
    } else {
        None
    }
}

/// The episode groups among the directories of a library tree: one per
/// directory that directly holds two or more videos, in listing order.
/// Directories that do not qualify are dropped on their own; the listing of
/// each subdirectory is judged independently.
pub fn collect_groups(listings: &Vec<DirListing>) -> (r: Vec<EpisodeGroup>)
    ensures
        r@.len() == groups_of(listings@).len(),
        forall|j: int| 0 <= j < r@.len() ==> (#[trigger] r@[j])@ == groups_of(listings@)[j] && r@[j].wf(),
{
    let mut out: Vec<EpisodeGroup> = Vec::new();
    let mut i: usize = 0;
    while i < listings.len()
        invariant
            i <= listings@.len(),
            out@.len() == groups_of(listings@.subrange(0, i as int)).len(),
            forall|j: int| 0 <= j < out@.len() ==> (#[trigger] out@[j])@ == groups_of(listings@.subrange(0, i as int))[j] && out@[j].wf(),
        decreases listings@.len() - i,
    {
        assert(listings@.subrange(0, i as int + 1).drop_last() =~= listings@.subrange(0, i as int));
        match group_of(&listings[i]) {
            Some(g) => {
                out.push(g);
            },
            None => {},
        }
        i = i + 1;
    }
    assert(listings@.subrange(0, listings@.len() as int) =~= listings@);
    out
}

} // verus!

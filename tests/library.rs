use notrobro::consensus::{correlate, ConsensusSegment};
use notrobro::correlate::{Candidate, CorrelationConfig};
use notrobro::detect::{detect_cuts, DetectError, Window};
use notrobro::edl::{episode_ranges, render_edl, to_episode_time, SkipRange};
use notrobro::fingerprint::hamming_distance;
use notrobro::media::{is_video, needs_processing, output_name_for};
use notrobro::report::parse_report;
use notrobro::scan::{collect_groups, group_of, DirListing};

fn cfg() -> CorrelationConfig {
    CorrelationConfig { max_distance: 8, max_time_gap_ms: 3000, frame_interval_ms: 500 }
}

fn c(time_ms: u64, hash: u64) -> Candidate {
    Candidate { time_ms, hash }
}

fn listing(dir: &str, names: &[&str]) -> DirListing {
    DirListing {
        dir: dir.as_bytes().to_vec(),
        names: names.iter().map(|n| n.as_bytes().to_vec()).collect(),
    }
}

#[test]
fn video_extensions_ignore_case() {
    assert!(is_video(b"episode01.mp4"));
    assert!(is_video(b"episode01.MKV"));
    assert!(is_video(b"a.b.Avi"));
    assert!(is_video(b"x.mov"));
    assert!(is_video(b"x.wmv"));
    assert!(!is_video(b"notes.txt"));
    assert!(!is_video(b"mp4"));
    assert!(!is_video(b".mp4"));
    assert!(!is_video(b"x.mp44"));
    assert!(!is_video(b"x.edl"));
}

#[test]
fn output_name_replaces_extension() {
    assert_eq!(output_name_for(b"ep1.mkv"), b"ep1.edl".to_vec());
    assert_eq!(output_name_for(b"a.b.mp4"), b"a.b.edl".to_vec());
    assert_eq!(output_name_for(b"noext"), b"noext.edl".to_vec());
    assert_eq!(output_name_for(b".hidden"), b".hidden.edl".to_vec());
}

#[test]
fn needs_processing_follows_force_and_artifact() {
    assert!(!needs_processing(false, true));
    assert!(needs_processing(false, false));
    assert!(needs_processing(true, true));
    assert!(needs_processing(true, false));
}

#[test]
fn directory_with_two_videos_is_a_group() {
    let ls = vec![
        listing("/lib/show/s1", &["e1.mp4", "e2.MKV", "cover.jpg"]),
        listing("/lib/show", &["trailer.mp4", "info.nfo"]),
        listing("/lib/show/s2", &["e1.avi", "e2.mov", "e3.wmv"]),
        listing("/lib/empty", &[]),
    ];
    let groups = collect_groups(&ls);
    assert_eq!(groups.len(), 2);
    assert_eq!(groups[0].dir, b"/lib/show/s1".to_vec());
    assert_eq!(groups[0].episodes, vec![b"e1.mp4".to_vec(), b"e2.MKV".to_vec()]);
    assert_eq!(groups[1].dir, b"/lib/show/s2".to_vec());
    assert_eq!(groups[1].episodes.len(), 3);
}

#[test]
fn directory_with_one_video_is_no_group() {
    assert!(group_of(&listing("/a", &["only.mp4", "readme.txt"])).is_none());
    assert!(group_of(&listing("/a", &["x.mp4", "y.mp4"])).is_some());
}

#[test]
fn hamming_counts_differing_bits() {
    assert_eq!(hamming_distance(0, 0), 0);
    assert_eq!(hamming_distance(0, 0xFF), 8);
    assert_eq!(hamming_distance(0, u64::MAX), 64);
    assert_eq!(hamming_distance(0xF0F0, 0x0FF0), 8);
}

#[test]
fn report_markers_are_parsed_in_order() {
    let report = b"[Parsed_showinfo_1] n:   0 pts: 1 pts_time:12.345 pos: 1\n\
                   [Parsed_showinfo_1] n:   1 pts: 2 pts_time:1.5 pos: 2\n\
                   pts_time:3.1234567 pts_time:12 pts_time:.5 pts_time:7.";
    assert_eq!(parse_report(report), Some(vec![12345, 1500, 3123]));
    assert_eq!(parse_report(b"no markers here"), Some(vec![]));
}

#[test]
fn report_marker_too_large_is_rejected() {
    assert_eq!(parse_report(b"pts_time:99999999999999999999.0 "), None);
}

#[test]
fn cuts_pair_times_with_images() {
    let report = b"pts_time:1.000 x pts_time:2.500 ";
    let cuts = detect_cuts(report, vec![b"0001.jpg".to_vec(), b"0002.jpg".to_vec()]).ok().unwrap();
    assert_eq!(cuts.len(), 2);
    assert_eq!(cuts[0].time_ms, 1000);
    assert_eq!(cuts[0].image, b"0001.jpg".to_vec());
    assert_eq!(cuts[1].time_ms, 2500);
    assert_eq!(cuts[1].image, b"0002.jpg".to_vec());
}

#[test]
fn cut_count_mismatch_gives_no_cuts() {
    let r = detect_cuts(b"pts_time:1.000 pts_time:2.000 ", vec![b"0001.jpg".to_vec()]);
    assert_eq!(r.err(), Some(DetectError::CountMismatch { markers: 2, images: 1 }));
    let r = detect_cuts(b"pts_time:1.000 ", vec![]);
    assert_eq!(r.err(), Some(DetectError::CountMismatch { markers: 1, images: 0 }));
}

#[test]
fn zero_cuts_is_valid() {
    let r = detect_cuts(b"nothing", vec![]);
    assert_eq!(r.ok().map(|v| v.len()), Some(0));
}

#[test]
fn bad_timestamp_is_a_detection_error() {
    let r = detect_cuts(b"pts_time:99999999999999999999.0 ", vec![b"a".to_vec()]);
    assert_eq!(r.err(), Some(DetectError::BadTimestamp));
}

#[test]
fn four_of_five_episodes_agree() {
    let logo: u64 = 0xDEAD_BEEF_0000_1111;
    let eps = vec![
        vec![c(2000, 0x1234), c(10_000, logo)],
        vec![c(10_400, logo)],
        vec![c(9_800, logo), c(200_000, 0x9999)],
        vec![c(11_000, logo)],
        vec![c(50_000, !logo)],
    ];
    let seg = correlate(&eps, &cfg()).unwrap();
    assert_eq!(seg, ConsensusSegment { start_ms: 9_300, end_ms: 11_500, hash: logo, support: 4 });
}

#[test]
fn three_unlike_episodes_have_no_consensus() {
    let eps = vec![
        vec![c(10_000, 0)],
        vec![c(10_000, 0xFFFF)],
        vec![c(10_000, 0xFFFF_0000)],
    ];
    assert_eq!(correlate(&eps, &cfg()), None);
}

#[test]
fn single_episode_group_meets_quorum_of_one() {
    let eps = vec![vec![c(5_000, 42), c(80_000, 7)]];
    let seg = correlate(&eps, &cfg()).unwrap();
    assert_eq!(seg.support, 1);
    assert_eq!(seg.start_ms, 4_500);
    assert_eq!(seg.end_ms, 5_500);
    assert_eq!(seg.hash, 42);
}

#[test]
fn empty_group_has_no_consensus() {
    let eps: Vec<Vec<Candidate>> = vec![vec![], vec![]];
    assert_eq!(correlate(&eps, &cfg()), None);
}

#[test]
fn two_of_four_is_not_a_majority() {
    let eps = vec![
        vec![c(10_000, 1)],
        vec![c(10_000, 1)],
        vec![c(10_000, 0xFFFF_FFFF)],
        vec![c(10_000, 0xFFFF_FFFF_0000_0000)],
    ];
    assert_eq!(correlate(&eps, &cfg()), None);
}

#[test]
fn misaligned_times_are_not_linked() {
    let eps = vec![vec![c(10_000, 5)], vec![c(20_000, 5)], vec![c(30_000, 5)]];
    assert_eq!(correlate(&eps, &cfg()), None);
}

#[test]
fn tie_on_support_goes_to_closer_fingerprints() {
    let eps = vec![
        vec![c(5_000, 0b111), c(100_000, 0)],
        vec![c(5_000, 0b000), c(100_000, 0)],
    ];
    let seg = correlate(&eps, &cfg()).unwrap();
    assert_eq!(seg.start_ms, 99_500);
    assert_eq!(seg.end_ms, 100_500);
    assert_eq!(seg.support, 2);
}

#[test]
fn representative_is_most_frequent_hash() {
    let eps = vec![
        vec![c(10_000, 0b1)],
        vec![c(10_100, 0b0)],
        vec![c(10_200, 0b0)],
    ];
    let seg = correlate(&eps, &cfg()).unwrap();
    assert_eq!(seg.hash, 0);
    assert_eq!(seg.support, 3);
}

#[test]
fn six_episode_folder_end_to_end() {
    let intro: u64 = 0xABCD_ABCD_ABCD_ABCD;
    let times = [11_500u64, 12_000, 12_500, 11_800, 12_200];
    let mut eps: Vec<Vec<Candidate>> = times.iter().map(|t| vec![c(*t, intro)]).collect();
    eps.push(vec![c(12_000, 0x1111_2222_3333_4444)]);
    let seg = correlate(&eps, &cfg()).unwrap();
    assert_eq!(seg.support, 5);
    assert_eq!(seg.hash, intro);
    assert_eq!(seg.start_ms, 11_000);
    assert_eq!(seg.end_ms, 13_000);
    let durations = [1_300_000u64, 1_310_000, 1_290_000, 1_305_000, 1_299_000, 1_320_000];
    for d in durations.iter() {
        let ranges = episode_ranges(Some(seg), None, *d);
        assert_eq!(ranges, vec![SkipRange { start_ms: 11_000, end_ms: 13_000, kind: Window::Intro }]);
        assert_eq!(render_edl(&ranges), b"11.000 13.000 intro\n".to_vec());
    }
}

#[test]
fn outro_times_count_back_from_episode_end() {
    assert_eq!(to_episode_time(Window::Outro, 250_000, 1_500_000), 1_450_000);
    assert_eq!(to_episode_time(Window::Outro, 0, 1_500_000), 1_200_000);
    assert_eq!(to_episode_time(Window::Outro, 400_000, 1_500_000), 1_500_000);
    assert_eq!(to_episode_time(Window::Outro, 0, 100_000), 0);
    assert_eq!(to_episode_time(Window::Intro, 7_250, 1_500_000), 7_250);
}

#[test]
fn episode_gets_intro_and_outro_ranges() {
    let i = ConsensusSegment { start_ms: 1_000, end_ms: 31_500, hash: 1, support: 3 };
    let o = ConsensusSegment { start_ms: 200_000, end_ms: 290_000, hash: 2, support: 3 };
    let ranges = episode_ranges(Some(i), Some(o), 1_200_000);
    assert_eq!(ranges, vec![
        SkipRange { start_ms: 1_000, end_ms: 31_500, kind: Window::Intro },
        SkipRange { start_ms: 1_100_000, end_ms: 1_190_000, kind: Window::Outro },
    ]);
    assert_eq!(render_edl(&ranges), b"1.000 31.500 intro\n1100.000 1190.000 outro\n".to_vec());
    assert!(episode_ranges(None, None, 1_200_000).is_empty());
}

#[test]
fn rendering_twice_gives_identical_bytes() {
    let ranges = vec![SkipRange { start_ms: 61_007, end_ms: 95_040, kind: Window::Intro }];
    let a = render_edl(&ranges);
    let b = render_edl(&ranges);
    assert_eq!(a, b);
    assert_eq!(a, b"61.007 95.040 intro\n".to_vec());
    assert_eq!(render_edl(&vec![]), Vec::<u8>::new());
}

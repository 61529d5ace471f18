use culler::decisions::DecisionMap;
use culler::model::{
    CaptureTime, Decision, Session, Shot, Tier, BUCKET_BESTS, BUCKET_KEEP, BUCKET_PICKS,
    BUCKET_REJECTED, BUCKET_REST, JOURNAL_FILE, JPEG_EXTS, RAW_EXTS, SESSION_BAD_FILE,
    SESSION_FILE, UNDO_LIMIT,
};
use culler::session::TierCounts;

#[test]
fn crate_builds() {
    assert_eq!(2 + 2, 4);
}

#[test]
fn bucket_constants_have_expected_names() {
    assert_eq!(BUCKET_REJECTED, "00_rejected");
    assert_eq!(BUCKET_REST, "01_rest");
    assert_eq!(BUCKET_KEEP, "02_keep");
    assert_eq!(BUCKET_PICKS, "03_picks");
    assert_eq!(BUCKET_BESTS, "04_bests");
}

#[test]
fn sidecar_and_journal_file_names() {
    assert_eq!(SESSION_FILE, ".fastcull.json");
    assert_eq!(SESSION_BAD_FILE, ".fastcull.json.bad");
    assert_eq!(JOURNAL_FILE, ".fastcull-apply.json");
}

#[test]
fn extension_tables_are_lowercase_no_dot() {
    assert!(RAW_EXTS.contains(&"cr3"));
    assert!(RAW_EXTS.contains(&"dng"));
    assert!(JPEG_EXTS.contains(&"jpg"));
    assert!(JPEG_EXTS.contains(&"jpeg"));
    assert!(
        RAW_EXTS
            .iter()
            .all(|e| e == &e.to_lowercase() && !e.starts_with('.'))
    );
}

#[test]
fn undo_limit_is_two_hundred() {
    assert_eq!(UNDO_LIMIT, 200);
}

#[test]
fn tier_rank_orders_quality_ladder() {
    assert_eq!(Tier::Reject.rank(), -1);
    assert_eq!(Tier::Keep.rank(), 1);
    assert_eq!(Tier::Pick.rank(), 2);
    assert_eq!(Tier::Best.rank(), 3);
    assert!(Tier::Reject.rank() < 0);
    assert!(Tier::Keep.rank() > 0);
    assert!(Tier::Keep.rank() < Tier::Pick.rank());
    assert!(Tier::Pick.rank() < Tier::Best.rank());
}

#[test]
fn tier_bucket_maps_to_constants() {
    assert_eq!(Tier::Reject.bucket(), BUCKET_REJECTED);
    assert_eq!(Tier::Keep.bucket(), BUCKET_KEEP);
    assert_eq!(Tier::Pick.bucket(), BUCKET_PICKS);
    assert_eq!(Tier::Best.bucket(), BUCKET_BESTS);
}

#[test]
fn tier_xmp_rating_matches_spec() {
    assert_eq!(Tier::Reject.xmp_rating(), -1);
    assert_eq!(Tier::Keep.xmp_rating(), 3);
    assert_eq!(Tier::Pick.xmp_rating(), 4);
    assert_eq!(Tier::Best.xmp_rating(), 5);
}

#[test]
fn decision_default_is_undecided_rest() {
    let d = Decision::default();
    assert!(d.is_undecided());
    assert_eq!(d.bucket(), BUCKET_REST);
    assert_eq!(d.xmp_rating(), None);
    assert!(d.tags.is_empty());
    assert!(!d.visited);
}

#[test]
fn decision_bucket_and_rating_follow_tier() {
    let pick = Decision {
        tier: Some(Tier::Pick),
        tags: vec![],
        visited: true,
    };
    assert!(!pick.is_undecided());
    assert_eq!(pick.bucket(), BUCKET_PICKS);
    assert_eq!(pick.xmp_rating(), Some(4));

    let reject = Decision {
        tier: Some(Tier::Reject),
        tags: vec![],
        visited: true,
    };
    assert_eq!(reject.bucket(), BUCKET_REJECTED);
    assert_eq!(reject.xmp_rating(), Some(-1));
}

#[test]
fn shot_files_lists_jpeg_only_when_no_siblings() {
    let shot = Shot {
        stem: "IMG_1234".to_string(),
        jpeg: Some("/src/IMG_1234.JPG".to_string()),
        raw: None,
        sidecar: None,
        capture: CaptureTime::default(),
        exif: None,
    };
    assert_eq!(
        shot.files(),
        vec!["/src/IMG_1234.JPG".to_string()]
    );
}

#[test]
fn shot_files_orders_jpeg_then_raw_then_sidecar() {
    let shot = Shot {
        stem: "IMG_1234".to_string(),
        jpeg: Some("/src/IMG_1234.JPG".to_string()),
        raw: Some("/src/IMG_1234.CR3".to_string()),
        sidecar: Some("/src/IMG_1234.xmp".to_string()),
        capture: CaptureTime {
            datetime: Some("2026:07:08 10:11:12".to_string()),
            subsec: Some(42),
        },
        exif: None,
    };
    assert_eq!(
        shot.files(),
        vec![
            "/src/IMG_1234.JPG".to_string(),
            "/src/IMG_1234.CR3".to_string(),
            "/src/IMG_1234.xmp".to_string(),
        ]
    );
}

#[test]
fn capture_time_default_is_empty() {
    let c = CaptureTime::default();
    assert_eq!(c.datetime, None);
    assert_eq!(c.subsec, None);
}

#[test]
fn session_decision_returns_stored_default_when_absent() {
    let session = Session {
        source_dir: "/src".to_string(),
        shots: vec![Shot {
            stem: "IMG_0001".to_string(),
            jpeg: Some("/src/IMG_0001.JPG".to_string()),
            raw: None,
            sidecar: None,
            capture: CaptureTime::default(),
            exif: None,
        }],
        decisions: DecisionMap::new(),
        current: 0,
        pending_apply: None,
        undo: Vec::new(),
    };
    let d = session.decision(0);
    assert!(d.is_undecided());
    assert_eq!(d, &Decision::default());
    assert_eq!(session.decision(99), &Decision::default());
}

#[test]
fn session_decision_returns_stored_value_when_present() {
    let mut session = Session::default();
    session.shots.push(Shot {
        stem: "IMG_0001".to_string(),
        jpeg: Some("/src/IMG_0001.JPG".to_string()),
        raw: None,
        sidecar: None,
        capture: CaptureTime::default(),
        exif: None,
    });
    session.decisions.insert(
        "IMG_0001".to_string(),
        Decision {
            tier: Some(Tier::Best),
            tags: vec![],
            visited: true,
        },
    );
    assert_eq!(session.decision(0).tier, Some(Tier::Best));
    assert!(session.decision(0).visited);
}

#[test]
fn tier_counts_default_is_all_zero() {
    assert_eq!(
        TierCounts::default(),
        TierCounts {
            rejected: 0,
            rest: 0,
            keep: 0,
            picks: 0,
            bests: 0
        }
    );
}

fn fixture_session(stems: &[&str]) -> Session {
    let mut session = Session::default();
    for stem in stems {
        session.shots.push(Shot {
            stem: (*stem).to_string(),
            jpeg: Some(format!("/src/{stem}.JPG")),
            raw: None,
            sidecar: None,
            capture: CaptureTime::default(),
            exif: None,
        });
    }
    session
}

#[test]
fn set_tier_records_undo_and_undo_restores_stepwise() {
    let mut session = fixture_session(&["A"]);

    session.set_tier(0, Some(Tier::Keep));
    assert_eq!(session.decision(0).tier, Some(Tier::Keep));
    assert_eq!(session.undo.len(), 1);

    session.set_tier(0, Some(Tier::Best));
    assert_eq!(session.decision(0).tier, Some(Tier::Best));
    assert_eq!(session.undo.len(), 2);

    assert!(session.undo());
    assert_eq!(session.decision(0).tier, Some(Tier::Keep));
    assert!(session.undo());
    assert_eq!(session.decision(0).tier, None);
    assert!(!session.undo());
}

#[test]
fn set_tier_preserves_existing_tags_and_visited() {
    let mut session = fixture_session(&["A"]);
    session.mark_visited(0);
    session.add_tag(0, "sky".to_string());
    session.set_tier(0, Some(Tier::Pick));
    assert_eq!(session.decision(0).tier, Some(Tier::Pick));
    assert_eq!(session.decision(0).tags, vec!["sky".to_string()]);
    assert!(session.decision(0).visited);
}

#[test]
fn add_tag_dedupes_and_records_undo() {
    let mut session = fixture_session(&["A"]);
    session.add_tag(0, "sky".to_string());
    session.add_tag(0, "sky".to_string());
    session.add_tag(0, "tree".to_string());
    assert_eq!(
        session.decision(0).tags,
        vec!["sky".to_string(), "tree".to_string()]
    );

    assert!(session.undo());
    assert_eq!(session.decision(0).tags, vec!["sky".to_string()]);
}

#[test]
fn set_tags_replaces_and_dedupes_preserving_order() {
    let mut session = fixture_session(&["A"]);
    session.set_tags(0, vec!["a".to_string(), "b".to_string(), "a".to_string()]);
    assert_eq!(
        session.decision(0).tags,
        vec!["a".to_string(), "b".to_string()]
    );
}

#[test]
fn mark_visited_is_idempotent_and_records_no_undo() {
    let mut session = fixture_session(&["A"]);
    session.mark_visited(0);
    session.mark_visited(0);
    assert!(session.decision(0).visited);
    assert!(session.undo.is_empty());
}

#[test]
fn undo_stack_is_bounded_at_limit() {
    let mut session = fixture_session(&["A"]);
    for _ in 0..(UNDO_LIMIT + 50) {
        session.add_tag(0, "x".to_string());
    }
    assert_eq!(session.undo.len(), UNDO_LIMIT);
}

#[test]
fn transitions_on_out_of_range_index_are_no_ops() {
    let mut session = fixture_session(&["A"]);
    session.set_tier(99, Some(Tier::Keep));
    session.add_tag(99, "x".to_string());
    session.set_tags(99, vec!["y".to_string()]);
    session.mark_visited(99);
    assert!(session.undo.is_empty());
    assert!(session.decisions.is_empty());
}

#[test]
fn counts_buckets_every_shot_undecided_as_rest() {
    let mut session = fixture_session(&["A", "B", "C", "D", "E"]);
    session.set_tier(0, Some(Tier::Keep));
    session.set_tier(1, Some(Tier::Pick));
    session.set_tier(2, Some(Tier::Best));
    session.set_tier(3, Some(Tier::Reject));
    assert_eq!(
        session.counts(),
        TierCounts {
            rejected: 1,
            rest: 1,
            keep: 1,
            picks: 1,
            bests: 1
        }
    );
}

#[test]
fn counts_treats_cleared_tier_as_rest() {
    let mut session = fixture_session(&["A", "B"]);
    session.set_tier(0, Some(Tier::Keep));
    session.set_tier(0, None);
    assert_eq!(
        session.counts(),
        TierCounts {
            rejected: 0,
            rest: 2,
            keep: 0,
            picks: 0,
            bests: 0
        }
    );
}

#[test]
fn visited_count_counts_only_visited() {
    let mut session = fixture_session(&["A", "B", "C"]);
    session.mark_visited(0);
    session.mark_visited(2);
    assert_eq!(session.visited_count(), 2);
}

#[test]
fn next_unvisited_finds_first_from_index_inclusive() {
    let mut session = fixture_session(&["A", "B", "C"]);
    session.mark_visited(0);
    assert_eq!(session.next_unvisited(0), Some(1));
    assert_eq!(session.next_unvisited(1), Some(1));
    session.mark_visited(1);
    session.mark_visited(2);
    assert_eq!(session.next_unvisited(0), None);
}

#[test]
fn next_unvisited_past_end_is_none() {
    let session = fixture_session(&["A", "B"]);
    assert_eq!(session.next_unvisited(0), Some(0));
    assert_eq!(session.next_unvisited(5), None);
}

#[test]
fn all_tags_are_sorted_and_unique() {
    let mut session = fixture_session(&["A", "B"]);
    session.set_tags(0, vec!["sky".to_string(), "tree".to_string()]);
    session.set_tags(1, vec!["tree".to_string(), "beach".to_string()]);
    assert_eq!(
        session.all_tags(),
        vec!["beach".to_string(), "sky".to_string(), "tree".to_string()]
    );
}

#[test]
fn tags_are_listed_by_use_and_then_by_name() {
    let mut session = fixture_session(&["A", "B", "C"]);
    assert!(session.tag_counts().is_empty());
    session.set_tags(0, vec!["sky".to_string(), "tree".to_string()]);
    session.set_tags(1, vec!["tree".to_string(), "beach".to_string()]);
    session.set_tags(2, vec!["tree".to_string(), "sky".to_string()]);
    assert_eq!(
        session.tag_counts(),
        vec![
            ("tree".to_string(), 3),
            ("sky".to_string(), 2),
            ("beach".to_string(), 1),
        ]
    );
    session.set_tags(0, Vec::new());
    assert_eq!(
        session.tag_counts(),
        vec![
            ("tree".to_string(), 2),
            ("beach".to_string(), 1),
            ("sky".to_string(), 1),
        ]
    );
}

#[test]
fn decisions_are_found_by_stem_in_any_order_of_entry() {
    let mut session = fixture_session(&["M", "B", "Z", "A"]);
    session.set_tier(2, Some(Tier::Best));
    session.set_tier(0, Some(Tier::Keep));
    session.set_tier(3, Some(Tier::Reject));
    assert_eq!(session.decision(0).tier, Some(Tier::Keep));
    assert_eq!(session.decision(1).tier, None);
    assert_eq!(session.decision(2).tier, Some(Tier::Best));
    assert_eq!(session.decision(3).tier, Some(Tier::Reject));
}

#[test]
fn undo_takes_back_each_kind_of_edit() {
    let mut session = fixture_session(&["A", "B"]);
    session.set_tier(0, Some(Tier::Pick));
    session.add_tag(0, "sky".to_string());
    session.set_tags(0, vec!["sea".to_string()]);
    assert!(session.undo());
    assert_eq!(session.decision(0).tags, vec!["sky"]);
    assert!(session.undo());
    assert!(session.decision(0).tags.is_empty());
    assert_eq!(session.decision(0).tier, Some(Tier::Pick));
    assert!(session.undo());
    assert_eq!(session.decision(0).tier, None);
    assert!(!session.undo());
}

#[test]
fn a_change_concerns_its_own_shot_only() {
    let mut session = fixture_session(&["A", "B"]);
    session.set_tier(0, Some(Tier::Best));
    session.add_tag(0, "sky".to_string());
    assert_eq!(session.decision(1).tier, None);
    assert!(session.decision(1).tags.is_empty());
    assert!(!session.decision(1).visited);
}

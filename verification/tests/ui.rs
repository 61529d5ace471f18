use culler::decisions::DecisionMap;
use culler::input::{nearest_passing, Filter};
use culler::model::{CaptureTime, Decision, Session, Shot, Tier};
use culler::ui::{
    build_filmstrip_window, dim_flag, hud_text, suggest_tags_counted, tag_segments,
    tier_color_code, ZoomState,
};

fn mk(tiers: &[Option<Tier>]) -> Session {
    let mut shots = Vec::new();
    let mut decisions = DecisionMap::new();
    for (i, t) in tiers.iter().enumerate() {
        let stem = format!("IMG_{i:04}");
        shots.push(Shot {
            stem: stem.clone(),
            jpeg: Some(format!("/s/{stem}.JPG")),
            raw: None,
            sidecar: None,
            capture: CaptureTime::default(),
            exif: None,
        });
        decisions.insert(
            stem,
            Decision {
                tier: *t,
                tags: vec![],
                visited: t.is_some(),
            },
        );
    }
    Session {
        source_dir: "/s".into(),
        shots,
        decisions,
        current: 0,
        pending_apply: None,
        undo: Vec::new(),
    }
}

#[test]
fn suggest_tags_counted_filters_shows_all_and_splits_prefix() {
    let counts = vec![
        ("sky".to_string(), 142usize),
        ("skyline".to_string(), 12),
        ("sea".to_string(), 30),
        ("Sunset".to_string(), 7),
    ];
    assert_eq!(
        suggest_tags_counted(&counts, "sk", &vec![]),
        vec![
            ("sk".to_string(), "y".to_string(), 142),
            ("sk".to_string(), "yline".to_string(), 12),
        ]
    );
    assert_eq!(
        suggest_tags_counted(&counts, "su", &vec![]),
        vec![("Su".to_string(), "nset".to_string(), 7)]
    );
    let all = suggest_tags_counted(&counts, "", &vec![]);
    assert_eq!(all.len(), 4);
    assert_eq!(all[0], ("".to_string(), "sky".to_string(), 142));
    assert!(
        suggest_tags_counted(&counts, "sky", &vec![])
            .iter()
            .all(|(p, r, _)| format!("{p}{r}") != "sky")
    );
    assert!(
        suggest_tags_counted(&counts, "", &vec!["sky".to_string()])
            .iter()
            .all(|(p, r, _)| format!("{p}{r}") != "sky")
    );
}

#[test]
fn tag_segments_splits_current_from_committed() {
    assert_eq!(tag_segments("sk"), ("sk".to_string(), vec![]));
    assert_eq!(
        tag_segments("street, "),
        ("".to_string(), vec!["street".to_string()])
    );
    assert_eq!(
        tag_segments("street, maria, mar"),
        ("mar".to_string(), vec!["street".to_string(), "maria".to_string()])
    );
    assert_eq!(tag_segments(""), ("".to_string(), vec![]));
}

#[test]
fn hud_text_reports_tier_counts_and_progress() {
    let s = mk(&[Some(Tier::Keep), Some(Tier::Reject), None]);
    let h = hud_text(&s, Filter::All, "");
    assert_eq!(h.tier, "Keep");
    assert!(h.counts.contains("keep 1"));
    assert!(h.counts.contains("reject 1"));
    assert!(h.progress.contains("seen 2/3"));
    assert_eq!(h.filter_label, "filter: All");
    assert_eq!(h.filename, "IMG_0000.JPG");
    assert!(!h.has_raw);
    assert_eq!(h.position, "1/3");
}

#[test]
fn hud_text_shows_rest_for_undecided_current() {
    let mut s = mk(&[None, None]);
    s.current = 0;
    let h = hud_text(&s, Filter::Keep, "");
    assert_eq!(h.tier, "Rest");
    assert_eq!(h.filter_label, "filter: >=Keep");
}

#[test]
fn hud_text_empty_session_is_safe() {
    let s = Session {
        source_dir: "/s".into(),
        shots: Vec::new(),
        decisions: DecisionMap::new(),
        current: 0,
        pending_apply: None,
        undo: Vec::new(),
    };
    let h = hud_text(&s, Filter::All, "");
    assert_eq!(h.position, "0/0");
    assert_eq!(h.tier, "Rest");
}

#[test]
fn tier_color_code_maps_every_tier() {
    assert_eq!(tier_color_code(&Decision::default()), 0);
    assert_eq!(
        tier_color_code(&Decision {
            tier: Some(Tier::Keep),
            ..Default::default()
        }),
        1
    );
    assert_eq!(
        tier_color_code(&Decision {
            tier: Some(Tier::Pick),
            ..Default::default()
        }),
        2
    );
    assert_eq!(
        tier_color_code(&Decision {
            tier: Some(Tier::Best),
            ..Default::default()
        }),
        3
    );
    assert_eq!(
        tier_color_code(&Decision {
            tier: Some(Tier::Reject),
            ..Default::default()
        }),
        4
    );
}

#[test]
fn only_unvisited_rest_is_dim() {
    assert!(dim_flag(&Decision {
        tier: None,
        visited: false,
        ..Default::default()
    }));
    assert!(!dim_flag(&Decision {
        tier: None,
        visited: true,
        ..Default::default()
    }));
    assert!(!dim_flag(&Decision {
        tier: Some(Tier::Keep),
        visited: false,
        ..Default::default()
    }));
}

fn mk_plain(n: usize) -> Session {
    let mut shots = Vec::new();
    let mut decisions = DecisionMap::new();
    for i in 0..n {
        let stem = format!("IMG_{i:04}");
        shots.push(Shot {
            stem: stem.clone(),
            jpeg: Some(format!("/s/{stem}.JPG")),
            raw: None,
            sidecar: None,
            capture: CaptureTime::default(),
            exif: None,
        });
        decisions.insert(stem, Decision::default());
    }
    Session {
        source_dir: "/s".into(),
        shots,
        decisions,
        current: 0,
        pending_apply: None,
        undo: Vec::new(),
    }
}

#[test]
fn filmstrip_window_is_buffered_and_reports_current_offset() {
    let mut s = mk_plain(100);
    s.current = 50;
    let (indices, cur_off) = build_filmstrip_window(&s, Filter::All, 5);
    assert_eq!(indices, vec![45, 46, 47, 48, 49, 50, 51, 52, 53, 54, 55]);
    assert_eq!(indices[cur_off], 50);
}

#[test]
fn filmstrip_window_clamps_at_edges() {
    let mut s = mk_plain(4);
    s.current = 0;
    let (indices, cur_off) = build_filmstrip_window(&s, Filter::All, 5);
    assert_eq!(indices, vec![0, 1, 2, 3]);
    assert_eq!(cur_off, 0);
}

#[test]
fn filmstrip_window_respects_filter() {
    let mut s = mk_plain(10);
    for i in (0..10).step_by(2) {
        let stem = format!("IMG_{i:04}");
        s.decisions.insert(
            stem,
            Decision {
                tier: Some(Tier::Keep),
                ..Default::default()
            },
        );
    }
    s.current = 4;
    let (indices, cur_off) = build_filmstrip_window(&s, Filter::Keep, 5);
    assert_eq!(indices, vec![0, 2, 4, 6, 8]);
    assert_eq!(indices[cur_off], 4);
}

#[test]
fn the_strip_marks_the_shot_that_the_loupe_goes_to() {
    let mut s = mk_plain(10);
    for i in [1usize, 6] {
        s.decisions.insert(
            format!("IMG_{i:04}"),
            Decision {
                tier: Some(Tier::Keep),
                ..Default::default()
            },
        );
    }
    for current in 0..10 {
        s.current = current;
        let (indices, at) = build_filmstrip_window(&s, Filter::Keep, 5);
        assert_eq!(nearest_passing(&s, Filter::Keep, current), Some(indices[at]));
    }
    s.current = 3;
    let (indices, at) = build_filmstrip_window(&s, Filter::Keep, 5);
    assert_eq!(indices[at], 6);
    s.current = 8;
    let (indices, at) = build_filmstrip_window(&s, Filter::Keep, 5);
    assert_eq!(indices[at], 6);
}

#[test]
fn toggle_flips_zoom_but_keeps_pan() {
    let mut z: ZoomState<f32> = ZoomState::default();
    assert!(!z.zoomed);
    z.pan_x = 120.0;
    z.pan_y = -40.0;
    z.toggle();
    assert!(z.zoomed);
    assert_eq!(z.pan_x, 120.0);
    assert_eq!(z.pan_y, -40.0);
}

#[test]
fn navigation_preserves_zoom_and_pan() {
    let mut z = ZoomState {
        zoomed: true,
        pan_x: 200.0,
        pan_y: 55.0,
    };
    z.on_navigate();
    assert!(z.zoomed);
    assert_eq!(z.pan_x, 200.0);
    assert_eq!(z.pan_y, 55.0);
}

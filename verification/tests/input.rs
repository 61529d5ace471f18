use culler::decisions::DecisionMap;
use culler::input::{
    apply_action, key_to_action, nearest_passing, next_filter, parse_tags, passes, step_filtered,
    to_key, Action, Filter, InputContext, Key, Modifiers,
};
use culler::model::{CaptureTime, Decision, Session, Shot, Tier};

const LOUPE: InputContext = InputContext::Loupe;
fn m() -> Modifiers {
    Modifiers::default()
}

#[test]
fn arrows_space_backspace_navigate() {
    assert_eq!(key_to_action(Key::Left, m(), LOUPE), Some(Action::Prev));
    assert_eq!(
        key_to_action(Key::Backspace, m(), LOUPE),
        Some(Action::Prev)
    );
    assert_eq!(key_to_action(Key::Right, m(), LOUPE), Some(Action::Next));
    assert_eq!(key_to_action(Key::Space, m(), LOUPE), Some(Action::Next));
}

#[test]
fn tier_keys_map_to_settier_some() {
    assert_eq!(
        key_to_action(Key::Char('1'), m(), LOUPE),
        Some(Action::SetTier(Some(Tier::Keep)))
    );
    assert_eq!(
        key_to_action(Key::Char('2'), m(), LOUPE),
        Some(Action::SetTier(Some(Tier::Pick)))
    );
    assert_eq!(
        key_to_action(Key::Char('3'), m(), LOUPE),
        Some(Action::SetTier(Some(Tier::Best)))
    );
    assert_eq!(
        key_to_action(Key::Char('x'), m(), LOUPE),
        Some(Action::SetTier(Some(Tier::Reject)))
    );
    assert_eq!(
        key_to_action(Key::Char('X'), m(), LOUPE),
        Some(Action::SetTier(Some(Tier::Reject)))
    );
}

#[test]
fn clear_keys_map_to_settier_none() {
    assert_eq!(
        key_to_action(Key::Char('`'), m(), LOUPE),
        Some(Action::SetTier(None))
    );
    assert_eq!(
        key_to_action(Key::Char('0'), m(), LOUPE),
        Some(Action::SetTier(None))
    );
}

#[test]
fn command_keys_cover_the_keymap() {
    assert_eq!(
        key_to_action(Key::Char('u'), m(), LOUPE),
        Some(Action::Undo)
    );
    assert_eq!(
        key_to_action(Key::Char('t'), m(), LOUPE),
        Some(Action::OpenTagEntry)
    );
    assert_eq!(
        key_to_action(Key::Char('z'), m(), LOUPE),
        Some(Action::ToggleZoom)
    );
    assert_eq!(
        key_to_action(Key::Char('f'), m(), LOUPE),
        Some(Action::CycleFilter)
    );
    assert_eq!(
        key_to_action(Key::Tab, m(), LOUPE),
        Some(Action::NextUnvisited)
    );
    assert_eq!(
        key_to_action(Key::Char('a'), m(), LOUPE),
        Some(Action::OpenApply)
    );
}

#[test]
fn ctrl_s_force_saves_but_plain_s_does_not() {
    let ctrl = Modifiers {
        control: true,
        ..Default::default()
    };
    assert_eq!(
        key_to_action(Key::Char('s'), ctrl, LOUPE),
        Some(Action::ForceSave)
    );
    assert_eq!(
        key_to_action(Key::Char('S'), ctrl, LOUPE),
        Some(Action::ForceSave)
    );
    assert_eq!(key_to_action(Key::Char('s'), m(), LOUPE), None);
}

#[test]
fn keymap_is_inert_outside_the_loupe() {
    assert_eq!(
        key_to_action(Key::Char('1'), m(), InputContext::TagEntry),
        None
    );
    assert_eq!(
        key_to_action(Key::Left, m(), InputContext::ApplyDialog),
        None
    );
}

#[test]
fn to_key_normalizes_specials_and_printables() {
    assert_eq!(to_key("Left"), Some(Key::Left));
    assert_eq!(to_key("Right"), Some(Key::Right));
    assert_eq!(to_key("Tab"), Some(Key::Tab));
    assert_eq!(to_key("Backspace"), Some(Key::Backspace));
    assert_eq!(to_key(" "), Some(Key::Space));
    assert_eq!(to_key("a"), Some(Key::Char('a')));
    assert_eq!(to_key(""), None);
}

#[test]
fn to_key_normalizes_escape() {
    assert_eq!(to_key("Escape"), Some(Key::Escape));
}

#[test]
fn question_mark_toggles_help_in_loupe() {
    assert_eq!(
        key_to_action(Key::Char('?'), m(), LOUPE),
        Some(Action::ToggleHelp)
    );
}

#[test]
fn f11_toggles_fullscreen_and_enter_toggles_focus() {
    assert_eq!(
        key_to_action(Key::F11, m(), LOUPE),
        Some(Action::ToggleFullscreen)
    );
    assert_eq!(
        key_to_action(Key::Return, m(), LOUPE),
        Some(Action::ToggleFocus)
    );
    assert_eq!(key_to_action(Key::F11, m(), InputContext::TagEntry), None);
    assert_eq!(
        key_to_action(Key::Return, m(), InputContext::ApplyDialog),
        None
    );
}

#[test]
fn to_key_normalizes_return_and_f11() {
    assert_eq!(to_key("Return"), Some(Key::Return));
    assert_eq!(to_key("F11"), Some(Key::F11));
}

#[test]
fn help_context_is_inert() {
    assert_eq!(key_to_action(Key::Char('1'), m(), InputContext::Help), None);
}

#[test]
fn r_key_toggles_raw_preview_in_loupe() {
    assert_eq!(
        key_to_action(Key::Char('r'), m(), LOUPE),
        Some(Action::ToggleRawPreview)
    );
    assert_eq!(
        key_to_action(Key::Char('R'), m(), LOUPE),
        Some(Action::ToggleRawPreview)
    );
    assert_eq!(
        key_to_action(Key::Char('r'), m(), InputContext::TagEntry),
        None
    );
}

fn mk_session(tiers: &[Option<Tier>]) -> Session {
    let mut shots = Vec::new();
    let mut decisions = DecisionMap::new();
    for (i, t) in tiers.iter().enumerate() {
        let stem = format!("IMG_{i:04}");
        shots.push(Shot {
            stem: stem.clone(),
            jpeg: Some(format!("/src/{stem}.JPG")),
            raw: None,
            sidecar: None,
            capture: CaptureTime::default(),
            exif: None,
        });
        decisions.insert(
            stem,
            Decision {
                tier: *t,
                tags: vec![],
                visited: false,
            },
        );
    }
    Session {
        source_dir: "/src".into(),
        shots,
        decisions,
        current: 0,
        pending_apply: None,
        undo: Vec::new(),
    }
}

#[test]
fn filter_cycles_all_keep_pick_best_rejects() {
    assert_eq!(next_filter(Filter::All), Filter::Keep);
    assert_eq!(next_filter(Filter::Keep), Filter::Pick);
    assert_eq!(next_filter(Filter::Pick), Filter::Best);
    assert_eq!(next_filter(Filter::Best), Filter::Rejects);
    assert_eq!(next_filter(Filter::Rejects), Filter::All);
}

#[test]
fn passes_respects_quality_ladder() {
    let none = Decision::default();
    let keep = Decision {
        tier: Some(Tier::Keep),
        ..Default::default()
    };
    let pick = Decision {
        tier: Some(Tier::Pick),
        ..Default::default()
    };
    let best = Decision {
        tier: Some(Tier::Best),
        ..Default::default()
    };
    let rej = Decision {
        tier: Some(Tier::Reject),
        ..Default::default()
    };

    for d in [&none, &keep, &pick, &best, &rej] {
        assert!(passes(Filter::All, d));
    }
    assert!(!passes(Filter::Keep, &none));
    assert!(!passes(Filter::Keep, &rej));
    assert!(passes(Filter::Keep, &keep));
    assert!(passes(Filter::Keep, &pick));
    assert!(passes(Filter::Keep, &best));
    assert!(!passes(Filter::Pick, &keep));
    assert!(passes(Filter::Pick, &pick));
    assert!(passes(Filter::Pick, &best));
    assert!(!passes(Filter::Best, &pick));
    assert!(passes(Filter::Best, &best));
    assert!(passes(Filter::Rejects, &rej));
    assert!(!passes(Filter::Rejects, &keep));
    assert!(!passes(Filter::Rejects, &none));
}

#[test]
fn step_filtered_skips_non_passing_forward_and_back() {
    let mut s = mk_session(&[
        Some(Tier::Keep),
        None,
        Some(Tier::Pick),
        None,
        Some(Tier::Best),
    ]);
    s.current = 0;
    assert_eq!(step_filtered(&s, Filter::Pick, true), Some(2));
    s.current = 2;
    assert_eq!(step_filtered(&s, Filter::Pick, true), Some(4));
    s.current = 4;
    assert_eq!(step_filtered(&s, Filter::Pick, true), None);
    s.current = 4;
    assert_eq!(step_filtered(&s, Filter::Pick, false), Some(2));
}

#[test]
fn step_filtered_all_is_plain_pm1() {
    let mut s = mk_session(&[None, None, None]);
    s.current = 1;
    assert_eq!(step_filtered(&s, Filter::All, true), Some(2));
    assert_eq!(step_filtered(&s, Filter::All, false), Some(0));
    s.current = 0;
    assert_eq!(step_filtered(&s, Filter::All, false), None);
}

#[test]
fn nearest_passing_prefers_at_or_after_then_falls_back() {
    let s = mk_session(&[
        Some(Tier::Keep),
        None,
        Some(Tier::Pick),
        None,
        Some(Tier::Best),
    ]);
    assert_eq!(nearest_passing(&s, Filter::Keep, 0), Some(0));
    assert_eq!(nearest_passing(&s, Filter::Pick, 1), Some(2));
    assert_eq!(nearest_passing(&s, Filter::Pick, 0), Some(2));
    assert_eq!(nearest_passing(&s, Filter::Keep, 3), Some(4));
    assert_eq!(nearest_passing(&s, Filter::Best, 4), Some(4));

    let s2 = mk_session(&[Some(Tier::Keep), None, None]);
    assert_eq!(nearest_passing(&s2, Filter::Keep, 2), Some(0));
}

#[test]
fn nearest_passing_none_when_nothing_matches_or_empty() {
    let s = mk_session(&[None, None, Some(Tier::Keep)]);
    assert_eq!(nearest_passing(&s, Filter::Rejects, 1), None);
    let empty = mk_session(&[]);
    assert_eq!(nearest_passing(&empty, Filter::All, 0), None);
    assert_eq!(nearest_passing(&s, Filter::Keep, 99), Some(2));
}

#[test]
fn parse_tags_splits_trims_dedupes() {
    assert_eq!(
        parse_tags("sky, tree ,  sky , , water"),
        vec!["sky".to_string(), "tree".to_string(), "water".to_string()]
    );
    assert!(parse_tags("   ").is_empty());
    assert!(parse_tags("").is_empty());
}


#[test]
fn settier_some_records_and_autoadvances() {
    let mut s = mk_session(&[None, None, None]);
    apply_action(Action::SetTier(Some(Tier::Keep)), &mut s, true, Filter::All);
    assert_eq!(s.decision(0).tier, Some(Tier::Keep));
    assert_eq!(s.current, 1);
    assert!(s.decision(1).visited);
}

#[test]
fn settier_some_no_autoadvance_when_disabled() {
    let mut s = mk_session(&[None, None]);
    apply_action(
        Action::SetTier(Some(Tier::Pick)),
        &mut s,
        false,
        Filter::All,
    );
    assert_eq!(s.current, 0);
}

#[test]
fn clear_never_autoadvances_even_when_enabled() {
    let mut s = mk_session(&[Some(Tier::Keep), None]);
    apply_action(Action::SetTier(None), &mut s, true, Filter::All);
    assert_eq!(s.decision(0).tier, None);
    assert_eq!(s.current, 0);
}

#[test]
fn undo_reverts_last_tier_change() {
    let mut s = mk_session(&[None]);
    apply_action(
        Action::SetTier(Some(Tier::Best)),
        &mut s,
        false,
        Filter::All,
    );
    apply_action(Action::Undo, &mut s, false, Filter::All);
    assert_eq!(s.decision(0).tier, None);
}

#[test]
fn next_prev_move_and_mark_visited() {
    let mut s = mk_session(&[None, None]);
    apply_action(Action::Next, &mut s, false, Filter::All);
    assert_eq!(s.current, 1);
    assert!(s.decision(1).visited);
    apply_action(Action::Prev, &mut s, false, Filter::All);
    assert_eq!(s.current, 0);
}

#[test]
fn autoadvance_respects_active_filter() {
    let mut s = mk_session(&[None, None, None]);
    apply_action(
        Action::SetTier(Some(Tier::Keep)),
        &mut s,
        false,
        Filter::All,
    );
    s.decisions.insert(
        "IMG_0002".to_string(),
        Decision {
            tier: Some(Tier::Keep),
            tags: vec![],
            visited: false,
        },
    );
    s.current = 0;
    apply_action(
        Action::SetTier(Some(Tier::Keep)),
        &mut s,
        true,
        Filter::Keep,
    );
    assert_eq!(s.current, 2);
}

#[test]
fn ui_only_actions_do_not_mutate_model() {
    let mut s = mk_session(&[None, None]);
    for a in [
        Action::OpenTagEntry,
        Action::ToggleZoom,
        Action::CycleFilter,
        Action::OpenApply,
        Action::ForceSave,
        Action::ToggleHelp,
        Action::ToggleFullscreen,
        Action::ToggleFocus,
    ] {
        apply_action(a, &mut s, true, Filter::All);
    }
    assert_eq!(s.current, 0);
    assert_eq!(s.decision(0), &Decision::default());
}

#[test]
fn next_unvisited_jumps_to_next_unvisited_shot() {
    let mut s = mk_session(&[None, None, None, None]);
    s.mark_visited(0);
    s.mark_visited(1);
    s.current = 0;

    apply_action(Action::NextUnvisited, &mut s, false, Filter::All);
    assert_eq!(s.current, 2);
    assert!(
        s.decision(2).visited,
        "landed shot should be marked visited"
    );

    apply_action(Action::NextUnvisited, &mut s, false, Filter::All);
    assert_eq!(s.current, 3);
    assert!(
        s.decision(3).visited,
        "landed shot should be marked visited"
    );
}

#[test]
fn toggle_raw_preview_does_not_mutate_model() {
    let mut s = mk_session(&[None, None]);
    apply_action(Action::ToggleRawPreview, &mut s, true, Filter::All);
    assert_eq!(s.current, 0);
    assert_eq!(s.decision(0), &Decision::default());
}

#[test]
fn committing_the_shown_tags_changes_nothing() {
    for text in ["", " , ,", "red", " red , sea,red,  a b ,", "\u{3000}x\u{a0},y"] {
        let tags = parse_tags(text);
        assert_eq!(parse_tags(&tags.join(", ")), tags);
    }
    assert_eq!(parse_tags(" red , sea,red,  a b ,"), vec!["red", "sea", "a b"]);
}

use culler::controls::{
    autosave_due, film_clicked, first_shown, key_outcome, perform, save_at_exit, tags_committed,
    Desk, Effects, KeyOutcome, Surfaces, Toast,
};
use culler::input::{Action, Filter};
use culler::model::{CaptureTime, Decision, Session, Shot, Tier};
use culler::ui::ZoomState;

fn loupe() -> Surfaces {
    Surfaces {
        help_open: false,
        tag_open: false,
        apply_open: false,
        apply_running: false,
    }
}

fn desk() -> Desk<i32> {
    Desk {
        filter: Filter::All,
        zoom: ZoomState {
            zoomed: false,
            pan_x: 7,
            pan_y: 9,
        },
        dirty: false,
        applied: false,
        auto_advance: true,
    }
}

fn session(tiers: &[Option<Tier>]) -> Session {
    let mut s = Session {
        source_dir: "/s".to_string(),
        ..Session::default()
    };
    for (i, t) in tiers.iter().enumerate() {
        let stem = format!("IMG_{i}");
        s.shots.push(Shot {
            stem: stem.clone(),
            jpeg: Some(format!("/s/{stem}.JPG")),
            raw: None,
            sidecar: None,
            capture: CaptureTime::default(),
            exif: None,
        });
        s.decisions.insert(
            stem,
            Decision {
                tier: *t,
                tags: vec![],
                visited: false,
            },
        );
    }
    s
}

fn toast(text: &str, code: i32) -> Option<Toast> {
    Some(Toast {
        text: text.to_string(),
        code,
    })
}

#[test]
fn the_help_sheet_takes_every_key() {
    let at = Surfaces {
        help_open: true,
        ..loupe()
    };
    assert_eq!(key_outcome("?", false, at), KeyOutcome::CloseHelp);
    assert_eq!(key_outcome("Escape", false, at), KeyOutcome::CloseHelp);
    assert_eq!(key_outcome("2", false, at), KeyOutcome::Swallowed);
}

#[test]
fn escape_closes_the_apply_dialog_unless_it_runs() {
    let at = Surfaces {
        apply_open: true,
        ..loupe()
    };
    assert_eq!(key_outcome("Escape", false, at), KeyOutcome::CloseApply);
    let running = Surfaces {
        apply_running: true,
        ..at
    };
    assert_eq!(key_outcome("Escape", false, running), KeyOutcome::Unbound);
    assert_eq!(key_outcome("2", false, at), KeyOutcome::Unbound);
}

#[test]
fn the_loupe_acts_on_its_keys() {
    assert_eq!(
        key_outcome("2", false, loupe()),
        KeyOutcome::Act(Action::SetTier(Some(Tier::Pick)))
    );
    assert_eq!(
        key_outcome("s", true, loupe()),
        KeyOutcome::Act(Action::ForceSave)
    );
    assert_eq!(key_outcome("q", false, loupe()), KeyOutcome::Unbound);
    let tags = Surfaces {
        tag_open: true,
        ..loupe()
    };
    assert_eq!(key_outcome("2", false, tags), KeyOutcome::Unbound);
}

#[test]
fn cycling_the_filter_goes_to_a_shot_that_it_lets_through() {
    let mut s = session(&[None, Some(Tier::Keep), None]);
    let mut d = desk();
    let fx = perform(Action::CycleFilter, &mut s, &mut d);
    assert_eq!(d.filter, Filter::Keep);
    assert_eq!(s.current, 1);
    assert!(s.decision(1).visited);
    assert!(d.dirty);
    assert_eq!(fx.toast, toast("filter: >=Keep", 1));
    assert!(fx.refresh && fx.request && !fx.save);
}

#[test]
fn cycling_the_filter_stays_on_a_shot_that_passes() {
    let mut s = session(&[None, Some(Tier::Best)]);
    s.current = 1;
    let mut d = Desk {
        filter: Filter::Rejects,
        ..desk()
    };
    let fx = perform(Action::CycleFilter, &mut s, &mut d);
    assert_eq!(d.filter, Filter::All);
    assert_eq!(s.current, 1);
    assert!(!d.dirty);
    assert_eq!(fx.toast, toast("filter: All", -1));
    assert!(!fx.request);
}

#[test]
fn zooming_keeps_the_pan_and_asks_for_the_frame() {
    let mut s = session(&[None]);
    let mut d = desk();
    let fx = perform(Action::ToggleZoom, &mut s, &mut d);
    assert!(d.zoom.zoomed);
    assert_eq!((d.zoom.pan_x, d.zoom.pan_y), (7, 9));
    assert!(fx.request && !fx.refresh);
}

#[test]
fn surfaces_are_opened_by_their_actions() {
    let mut s = session(&[None]);
    s.set_tags(0, vec!["sky".to_string(), "sea".to_string()]);
    let mut d = desk();
    let fx = perform(Action::OpenTagEntry, &mut s, &mut d);
    assert_eq!(fx.tag_text, Some("sky, sea".to_string()));
    assert!(perform(Action::OpenApply, &mut s, &mut d).open_apply);
    assert!(perform(Action::ToggleHelp, &mut s, &mut d).open_help);
    assert!(!d.dirty);
}

#[test]
fn saving_by_hand_is_told_and_stops_once_applied() {
    let mut s = session(&[None]);
    let mut d = Desk {
        dirty: true,
        ..desk()
    };
    let fx = perform(Action::ForceSave, &mut s, &mut d);
    assert!(fx.save);
    assert!(!d.dirty);
    assert_eq!(fx.toast, toast("session saved", -1));
    d.applied = true;
    let fx = perform(Action::ForceSave, &mut s, &mut d);
    assert!(!fx.save);
    assert_eq!(
        fx.toast,
        toast("session already applied (record is in the destination)", -1)
    );
}

#[test]
fn undoing_is_told_with_the_colour_of_the_shot() {
    let mut s = session(&[Some(Tier::Keep), None]);
    let mut d = desk();
    let fx = perform(Action::Undo, &mut s, &mut d);
    assert_eq!(fx.toast, toast("nothing to undo", -1));
    assert!(!fx.refresh && !d.dirty);
    s.set_tier(0, Some(Tier::Best));
    let fx = perform(Action::Undo, &mut s, &mut d);
    assert_eq!(fx.toast, toast("undo IMG_0", 1));
    assert!(fx.refresh && d.dirty);
    assert_eq!(s.decision(0).tier, Some(Tier::Keep));
}

#[test]
fn a_tier_is_given_and_the_next_shot_is_shown() {
    let mut s = session(&[None, None]);
    let mut d = desk();
    let fx = perform(Action::SetTier(Some(Tier::Pick)), &mut s, &mut d);
    assert_eq!(s.decision(0).tier, Some(Tier::Pick));
    assert_eq!(s.current, 1);
    assert!(fx.refresh && fx.request && d.dirty);
    let fx = perform(Action::SetTier(None), &mut s, &mut d);
    assert!(fx.refresh && !fx.request);
}

#[test]
fn a_click_goes_to_the_shot_that_is_shown_there() {
    let mut s = session(&[None, Some(Tier::Keep), None, Some(Tier::Pick)]);
    assert!(film_clicked(&mut s, Filter::Keep, 8, 1));
    assert_eq!(s.current, 3);
    assert!(s.decision(3).visited);
    assert!(!film_clicked(&mut s, Filter::Keep, 8, 2));
    assert!(!film_clicked(&mut s, Filter::Keep, 8, -1));
    assert_eq!(s.current, 3);
}

#[test]
fn entered_tags_are_given_to_the_current_shot() {
    let mut s = session(&[None, None]);
    s.current = 1;
    tags_committed(&mut s, "sky, ,sea,sky");
    assert_eq!(s.decision(1).tags, vec!["sky", "sea"]);
    assert!(s.decision(0).tags.is_empty());
}

#[test]
fn the_first_shot_counts_as_seen() {
    let mut s = session(&[None]);
    first_shown(&mut s);
    assert!(s.decision(0).visited);
    let mut none = session(&[]);
    first_shown(&mut none);
    assert!(none.shots.is_empty());
}

#[test]
fn the_clock_saves_what_has_changed_until_it_is_applied() {
    let mut d = Desk {
        dirty: true,
        ..desk()
    };
    assert!(autosave_due(&mut d));
    assert!(!d.dirty);
    assert!(!autosave_due(&mut d));
    assert!(save_at_exit(&d));
    d.dirty = true;
    d.applied = true;
    assert!(!autosave_due(&mut d));
    assert!(d.dirty);
    assert!(!save_at_exit(&d));
}

#[test]
fn nothing_is_to_be_done_by_default() {
    assert_eq!(
        Effects::none(),
        Effects {
            toast: None,
            refresh: false,
            request: false,
            save: false,
            tag_text: None,
            open_apply: false,
            open_help: false,
        }
    );
}

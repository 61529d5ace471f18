//! What happens on a key, a click or a tick of the clock: which surface takes a key, what
//! becomes of the session, and what is to be shown, saved or decoded next.
use vstd::prelude::*;
use crate::input::{
    acted, apply_action, committing_the_shown_tags_changes_nothing, decided_alike, filter_after,
    filters_come_round, fits, going_to_a_shot_decides_nothing, gone_to, key_of, key_to_action,
    meaning, moving_decides_nothing, nearest, nearest_passing, next_filter, only_moves,
    parse_tags, tags_in, the_nearest_is_found, to_key, Action, Filter, InputContext, Modifiers,
};
use crate::model::{DecisionView, Session, SessionView, Tier};
use crate::text::{join_text, joined, same_text};
use crate::ui::{
    as_ints, build_filmstrip_window, colour_of, filter_label, filter_words, tier_color_code,
    window, ZoomState,
};

verus! {

/// Which surfaces are open over the loupe.
#[derive(Clone, Copy, PartialEq, Eq, Debug)]
pub struct Surfaces {
    pub help_open: bool,
    pub tag_open: bool,
    pub apply_open: bool,
    pub apply_running: bool,
}

/// What becomes of a key.
#[derive(Clone, Copy, PartialEq, Eq, Debug)]
pub enum KeyOutcome {
    /// The help sheet is closed.
    CloseHelp,
    /// The help sheet takes the key and does nothing.
    Swallowed,
    /// The apply dialog is closed.
    CloseApply,
    /// The key means nothing here.
    Unbound,
    Act(Action),
}

/// Which surface has the keyboard.
pub open spec fn context_of(at: Surfaces) -> InputContext {
    if at.help_open {
        InputContext::Help
    } else if at.tag_open {
        InputContext::TagEntry
    } else if at.apply_open {
        InputContext::ApplyDialog
    } else {
        InputContext::Loupe
    }
}

/// What becomes of a key. The help sheet takes all of them; the apply dialog is closed by
/// Escape unless the apply is running.
pub open spec fn outcome_of(text: Seq<char>, control: bool, at: Surfaces) -> KeyOutcome {
    if at.help_open {
        if text == "?"@ || text == "Escape"@ {
            KeyOutcome::CloseHelp
        } else {
            KeyOutcome::Swallowed
        }
    } else if at.apply_open && text == "Escape"@ && !at.apply_running {
        KeyOutcome::CloseApply
    } else {
        match key_of(text) {
            None => KeyOutcome::Unbound,
            Some(key) => match meaning(
                key,
                Modifiers { control, shift: false, alt: false },
                context_of(at),
            ) {
                None => KeyOutcome::Unbound,
                Some(a) => KeyOutcome::Act(a),
            },
        }
    }
}

/// What becomes of a key.
pub fn key_outcome(text: &str, control: bool, at: Surfaces) -> (r: KeyOutcome)
    ensures
        r == outcome_of(text@, control, at),
{
    if at.help_open {
        if same_text(text, "?") || same_text(text, "Escape") {
            return KeyOutcome::CloseHelp;
        }
        return KeyOutcome::Swallowed;
    }
    if at.apply_open && same_text(text, "Escape") && !at.apply_running {
        return KeyOutcome::CloseApply;
    }
    let ctx = if at.tag_open {
        InputContext::TagEntry
    } else if at.apply_open {
        InputContext::ApplyDialog
    } else {
        InputContext::Loupe
    };
    match to_key(text) {
        None => KeyOutcome::Unbound,
        Some(key) => {
            let mods = Modifiers { control, shift: false, alt: false };
            match key_to_action(key, mods, ctx) {
                None => KeyOutcome::Unbound,
                Some(a) => KeyOutcome::Act(a),
            }
        },
    }
}

/// While any surface is open over the loupe, no key acts on the session.
pub proof fn open_surfaces_shield_the_session(text: Seq<char>, control: bool, at: Surfaces)
    requires
        at.help_open || at.tag_open || at.apply_open,
    ensures
        !(outcome_of(text, control, at) is Act),
{
}

/// A short note, with the number of the colour of its dot; none for -1.
#[derive(PartialEq, Eq, Debug)]
pub struct Toast {
    pub text: String,
    pub code: i32,
}

/// The value of a `Toast`.
pub struct ToastView {
    pub text: Seq<char>,
    pub code: int,
}

impl View for Toast {
    type V = ToastView;

    open spec fn view(&self) -> ToastView {
        ToastView { text: self.text@, code: self.code as int }
    }
}

/// The value of an optional toast.
pub open spec fn opt_toast(o: Option<Toast>) -> Option<ToastView> {
    match o {
        Some(t) => Some(t@),
        None => None,
    }
}

/// The colour that goes with a filter; none where it lets everything through.
pub open spec fn filter_code(f: Filter) -> int {
    match f {
        Filter::All => -1,
        Filter::Keep => 1,
        Filter::Pick => 2,
        Filter::Best => 3,
        Filter::Rejects => 4,
    }
}

fn code_of_filter(f: Filter) -> (r: i32)
    ensures
        r == filter_code(f),
{
    match f {
        Filter::All => -1,
        Filter::Keep => 1,
        Filter::Pick => 2,
        Filter::Best => 3,
        Filter::Rejects => 4,
    }
}

/// What is to be done after an action.
#[derive(PartialEq, Eq, Debug)]
pub struct Effects {
    pub toast: Option<Toast>,
    /// Show the session anew.
    pub refresh: bool,
    /// Ask for the frames anew.
    pub request: bool,
    /// Save the session.
    pub save: bool,
    /// Open the entry of tags with this text.
    pub tag_text: Option<String>,
    pub open_apply: bool,
    pub open_help: bool,
}

/// The value of an `Effects`.
pub struct EffectsView {
    pub toast: Option<ToastView>,
    pub refresh: bool,
    pub request: bool,
    pub save: bool,
    pub tag_text: Option<Seq<char>>,
    pub open_apply: bool,
    pub open_help: bool,
}

impl View for Effects {
    type V = EffectsView;

    open spec fn view(&self) -> EffectsView {
        EffectsView {
            toast: opt_toast(self.toast),
            refresh: self.refresh,
            request: self.request,
            save: self.save,
            tag_text: crate::model::opt_text(self.tag_text),
            open_apply: self.open_apply,
            open_help: self.open_help,
        }
    }
}

impl EffectsView {
    /// Nothing is to be done.
    pub open spec fn none() -> EffectsView {
        EffectsView {
            toast: None,
            refresh: false,
            request: false,
            save: false,
            tag_text: None,
            open_apply: false,
            open_help: false,
        }
    }
}

impl Effects {
    /// Nothing is to be done.
    pub fn none() -> (r: Self)
        ensures
            r@ == EffectsView::none(),
    {
        Effects {
            toast: None,
            refresh: false,
            request: false,
            save: false,
            tag_text: None,
            open_apply: false,
            open_help: false,
        }
    }
}

/// What the program holds besides the session.
#[derive(Clone, Copy, PartialEq, Debug)]
pub struct Desk<P> {
    pub filter: Filter,
    pub zoom: ZoomState<P>,
    /// Whether the session has changed since it was saved.
    pub dirty: bool,
    /// Whether the session was applied, so that its record is at the destination.
    pub applied: bool,
    pub auto_advance: bool,
}

/// Where the session goes when the filter changes: to the nearest shot that it lets
/// through, and nowhere where it is there or there is none.
pub open spec fn refiltered(s: SessionView, filter: Filter) -> SessionView {
    let to = nearest(s, filter, s.current);
    if to is Some && to->0 != s.current {
        gone_to(s, to)
    } else {
        s
    }
}

/// The note on what was undone: the stem of the current shot and its colour.
pub open spec fn undo_toast(before: SessionView) -> ToastView {
    let s = before.undone();
    if before.undo.len() == 0 {
        ToastView { text: "nothing to undo"@, code: -1 }
    } else {
        ToastView {
            text: if 0 <= s.current < s.shots.len() {
                "undo "@ + s.shots[s.current].stem
            } else {
                "undo"@
            },
            code: colour_of(s.decision_at(s.current).tier) as int,
        }
    }
}

/// The note on saving by hand. Once the session was applied its record is at the
/// destination, and none is written at the source again.
pub open spec fn save_toast(applied: bool) -> ToastView {
    ToastView {
        text: if applied {
            "session already applied (record is in the destination)"@
        } else {
            "session saved"@
        },
        code: -1,
    }
}

/// The session after an action.
pub open spec fn session_after<P>(s: SessionView, desk: Desk<P>, action: Action) -> SessionView {
    match action {
        Action::CycleFilter => refiltered(s, filter_after(desk.filter)),
        _ => acted(s, action, desk.auto_advance, desk.filter),
    }
}

/// What the program holds after an action, given the session before and after.
pub open spec fn desk_after<P>(
    desk: Desk<P>,
    action: Action,
    before: SessionView,
    after: SessionView,
) -> Desk<P> {
    match action {
        Action::CycleFilter => Desk {
            filter: filter_after(desk.filter),
            dirty: desk.dirty || after.current != before.current,
            ..desk
        },
        Action::ToggleZoom => Desk {
            zoom: ZoomState { zoomed: !desk.zoom.zoomed, ..desk.zoom },
            ..desk
        },
        Action::OpenTagEntry => desk,
        Action::OpenApply => desk,
        Action::ToggleHelp => desk,
        Action::ForceSave => Desk { dirty: false, ..desk },
        Action::Undo => Desk { dirty: desk.dirty || before.undo.len() > 0, ..desk },
        _ => Desk { dirty: true, ..desk },
    }
}

/// What is to be done after an action, given the session before and after.
pub open spec fn effects_of<P>(
    desk: Desk<P>,
    action: Action,
    before: SessionView,
    after: SessionView,
) -> EffectsView {
    let none = EffectsView::none();
    match action {
        Action::CycleFilter => EffectsView {
            toast: Some(
                ToastView {
                    text: filter_words(filter_after(desk.filter)),
                    code: filter_code(filter_after(desk.filter)),
                },
            ),
            refresh: true,
            request: after.current != before.current,
            ..none
        },
        Action::ToggleZoom => EffectsView { request: true, ..none },
        Action::OpenTagEntry => EffectsView {
            tag_text: Some(joined(before.decision_at(before.current).tags, ", "@)),
            ..none
        },
        Action::OpenApply => EffectsView { open_apply: true, ..none },
        Action::ToggleHelp => EffectsView { open_help: true, ..none },
        Action::ForceSave => EffectsView {
            toast: Some(save_toast(desk.applied)),
            save: !desk.applied,
            ..none
        },
        Action::Undo => EffectsView {
            toast: Some(undo_toast(before)),
            refresh: before.undo.len() > 0,
            ..none
        },
        _ => EffectsView {
            refresh: true,
            request: after.current != before.current,
            ..none
        },
    }
}

fn change_filter(session: &mut Session, filter: Filter) -> (moved: bool)
    ensures
        final(session)@ == refiltered(old(session)@, filter),
        moved == (final(session)@.current != old(session)@.current),
{
    let ghost before = session@;
    match nearest_passing(session, filter, session.current) {
        Some(i) => {
            if i != session.current {
                session.current = i;
                assert(session@ == SessionView { current: i as int, ..before });
                session.mark_visited(i);
                true
            } else {
                false
            }
        },
        None => false,
    }
}

fn undo_note(session: &Session) -> (r: Toast)
    ensures
        r@.text == (if 0 <= session@.current < session@.shots.len() {
            "undo "@ + session@.shots[session@.current].stem
        } else {
            "undo"@
        }),
        r@.code == colour_of(session@.decision_at(session@.current).tier),
{
    let text = if session.current < session.shots.len() {
        let mut s = String::from_str("undo ");
        s.append(session.shots[session.current].stem.as_str());
        assert(session@.shots[session@.current] == session.shots@[session@.current]@);
        s
    } else {
        String::from_str("undo")
    };
    Toast { text, code: tier_color_code(session.decision(session.current)) }
}

/// Does an action: changes the session and what the program holds, and says what is to be
/// done after it.
pub fn perform<P>(action: Action, session: &mut Session, desk: &mut Desk<P>) -> (r: Effects)
    ensures
        final(session)@ == session_after(old(session)@, *old(desk), action),
        *final(desk) == desk_after(*old(desk), action, old(session)@, final(session)@),
        r@ == effects_of(*old(desk), action, old(session)@, final(session)@),
{
    let mut fx = Effects::none();
    match action {
        Action::CycleFilter => {
            let f = next_filter(desk.filter);
            desk.filter = f;
            let moved = change_filter(session, f);
            if moved {
                desk.dirty = true;
            }
            fx.toast = Some(Toast { text: filter_label(f).to_owned(), code: code_of_filter(f) });
            fx.refresh = true;
            fx.request = moved;
        },
        Action::ToggleZoom => {
            desk.zoom.toggle();
            fx.request = true;
        },
        Action::OpenTagEntry => {
            let d = session.decision(session.current);
            fx.tag_text = Some(join_text(&d.tags, ", "));
        },
        Action::OpenApply => {
            fx.open_apply = true;
        },
        Action::ToggleHelp => {
            fx.open_help = true;
        },
        Action::ForceSave => {
            desk.dirty = false;
            if desk.applied {
                fx.toast = Some(
                    Toast {
                        text: String::from_str(
                            "session already applied (record is in the destination)",
                        ),
                        code: -1,
                    },
                );
            } else {
                fx.toast = Some(Toast { text: String::from_str("session saved"), code: -1 });
                fx.save = true;
            }
        },
        Action::Undo => {
            if session.undo() {
                desk.dirty = true;
                fx.refresh = true;
                fx.toast = Some(undo_note(session));
            } else {
                fx.toast = Some(Toast { text: String::from_str("nothing to undo"), code: -1 });
            }
        },
        other => {
            let before: usize = session.current;
            apply_action(other, session, desk.auto_advance, desk.filter);
            if session.current != before {
                desk.zoom.on_navigate();
                fx.request = true;
            }
            desk.dirty = true;
            fx.refresh = true;
        },
    }
    fx
}

/// The shot at a place of the filmstrip.
pub open spec fn clicked(s: SessionView, filter: Filter, buffer: int, offset: int) -> Option<int> {
    let shown = window(s, filter, buffer).0;
    if 0 <= offset < shown.len() {
        Some(shown[offset])
    } else {
        None
    }
}

/// Goes to the shot at a place of the filmstrip; `false` where there is none.
pub fn film_clicked(session: &mut Session, filter: Filter, buffer: usize, offset: i32) -> (r: bool)
    ensures
        r == (clicked(old(session)@, filter, buffer as int, offset as int) is Some),
        final(session)@ == gone_to(
            old(session)@,
            clicked(old(session)@, filter, buffer as int, offset as int),
        ),
{
    let ghost before = session@;
    let (shown, _) = build_filmstrip_window(session, filter, buffer);
    if offset < 0 || offset as usize >= shown.len() {
        return false;
    }
    let i: usize = shown[offset as usize];
    assert(as_ints(shown@)[offset as int] == i);
    session.current = i;
    assert(session@ == SessionView { current: i as int, ..before });
    session.mark_visited(i);
    true
}

/// Gives the current shot the tags that a text lists.
pub fn tags_committed(session: &mut Session, text: &str)
    ensures
        final(session)@ == old(session)@.tags_set(old(session)@.current, tags_in(text@)),
{
    let at: usize = session.current;
    session.set_tags(at, parse_tags(text));
}

/// Marks the shot that is shown first as seen.
pub fn first_shown(session: &mut Session)
    ensures
        final(session)@ == old(session)@.seen(old(session)@.current),
{
    let at: usize = session.current;
    session.mark_visited(at);
}

/// Whether the session is to be saved now that the clock ticks: it has changed, and its
/// record is still at the source. It then counts as saved.
pub fn autosave_due<P>(desk: &mut Desk<P>) -> (r: bool)
    ensures
        r == (old(desk).dirty && !old(desk).applied),
        *final(desk) == (if r {
            Desk { dirty: false, ..*old(desk) }
        } else {
            *old(desk)
        }),
        r ==> !final(desk).dirty && !final(desk).applied,
        !r ==> *final(desk) == *old(desk),
        !old(desk).applied && old(desk).dirty ==> r,
        final(desk).applied == old(desk).applied,
        final(desk).filter == old(desk).filter,
        final(desk).zoom == old(desk).zoom,
        final(desk).auto_advance == old(desk).auto_advance,
{
    if !desk.applied && desk.dirty {
        desk.dirty = false;
        true
    } else {
        false
    }
}

/// Whether the session is to be saved at the end: unless its record is at the destination.
pub fn save_at_exit<P>(desk: &Desk<P>) -> (r: bool)
    ensures
        r == !desk.applied,
{
    !desk.applied
}

/// Once the session was applied, nothing writes its record at the source again: neither an
/// action nor the clock nor the end of the program.
pub proof fn an_applied_session_is_not_saved<P>(
    desk: Desk<P>,
    action: Action,
    before: SessionView,
    after: SessionView,
)
    requires
        desk.applied,
    ensures
        !effects_of(desk, action, before, after).save,
        desk_after(desk, action, before, after).applied,
{
}

/// Every change of the session is noted, so that it is saved in time.
pub proof fn changes_are_noted<P>(desk: Desk<P>, action: Action, before: SessionView)
    requires
        0 <= before.current,
        session_after(before, desk, action) != before,
    ensures
        desk_after(desk, action, before, session_after(before, desk, action)).dirty,
{
}

/// Changing the filter never changes a tier or a tag and leaves nothing new to undo. A shot
/// that the new filter lets through stays the current one.
pub proof fn a_filter_decides_nothing(s: SessionView, filter: Filter)
    requires
        0 <= s.current,
    ensures
        decided_alike(s, refiltered(s, filter)),
        refiltered(s, filter).undo == s.undo,
        refiltered(s, filter).shots == s.shots,
        refiltered(s, filter).source_dir == s.source_dir,
        refiltered(s, filter).pending_apply == s.pending_apply,
        s.current < s.shots.len() && fits(filter, s.decision_at(s.current)) ==> refiltered(
            s,
            filter,
        ) == s,
{
    the_nearest_is_found(s, filter, s.current);
    going_to_a_shot_decides_nothing(s, nearest(s, filter, s.current));
}

/// After a change of the filter the current shot is one that it lets through, wherever there
/// is one: the next such shot, or else the last before.
pub proof fn a_filter_shows_what_it_lets_through(s: SessionView, filter: Filter, j: int)
    requires
        0 <= s.current < s.shots.len(),
        0 <= j < s.shots.len(),
        fits(filter, s.decision_at(j)),
    ensures
        ({
            let t = refiltered(s, filter);
            &&& 0 <= t.current < s.shots.len()
            &&& fits(filter, s.decision_at(t.current))
            &&& s.current <= j ==> s.current <= t.current <= j
            &&& j < s.current ==> j <= t.current
            &&& t.current != s.current ==> t.decision_at(t.current).visited
        }),
{
    the_nearest_is_found(s, filter, s.current);
    going_to_a_shot_decides_nothing(s, nearest(s, filter, s.current));
}

/// No action but setting a tier and undo changes a tier or a tag, and none at all changes
/// the shots or the folder.
pub proof fn looking_decides_nothing<P>(s: SessionView, desk: Desk<P>, action: Action)
    requires
        0 <= s.current,
        !(action is SetTier),
        action != Action::Undo,
    ensures
        decided_alike(s, session_after(s, desk, action)),
        session_after(s, desk, action).undo == s.undo,
        session_after(s, desk, action).shots == s.shots,
        session_after(s, desk, action).source_dir == s.source_dir,
{
    a_filter_decides_nothing(s, filter_after(desk.filter));
    if only_moves(action) {
        moving_decides_nothing(s, action, desk.auto_advance, desk.filter);
    }
}

/// A click on the filmstrip goes to the shot that is shown there and decides nothing.
pub proof fn a_click_decides_nothing(s: SessionView, filter: Filter, buffer: int, offset: int)
    ensures
        ({
            let t = gone_to(s, clicked(s, filter, buffer, offset));
            &&& decided_alike(s, t)
            &&& t.undo == s.undo
            &&& t.shots == s.shots
            &&& 0 <= offset < window(s, filter, buffer).0.len() ==> t.current == window(
                s,
                filter,
                buffer,
            ).0[offset]
            &&& !(0 <= offset < window(s, filter, buffer).0.len()) ==> t == s
        }),
{
    going_to_a_shot_decides_nothing(s, clicked(s, filter, buffer, offset));
}

/// An action changes of the desk what it is for: only cycling changes the filter, only
/// zooming the zoom, and none of them whether tiers advance.
pub proof fn an_action_changes_what_it_is_for<P>(
    desk: Desk<P>,
    action: Action,
    before: SessionView,
    after: SessionView,
)
    ensures
        ({
            let d = desk_after(desk, action, before, after);
            &&& action != Action::CycleFilter ==> d.filter == desk.filter
            &&& action == Action::CycleFilter ==> d.filter != desk.filter
            &&& action != Action::ToggleZoom ==> d.zoom == desk.zoom
            &&& action == Action::ToggleZoom ==> d.zoom.zoomed != desk.zoom.zoomed
            &&& d.auto_advance == desk.auto_advance
            &&& d.applied == desk.applied
            &&& action != Action::ForceSave && desk.dirty ==> d.dirty
            &&& action == Action::ForceSave ==> !d.dirty
        }),
{
    filters_come_round(desk.filter);
}

/// Frames are asked for anew whenever the current shot has changed, and the session is shown
/// anew whenever it has.
pub proof fn what_changed_is_shown<P>(desk: Desk<P>, action: Action, s: SessionView)
    requires
        0 <= s.current,
    ensures
        ({
            let t = session_after(s, desk, action);
            let fx = effects_of(desk, action, s, t);
            &&& t.current != s.current ==> fx.request
            &&& t != s ==> fx.refresh
            &&& action == Action::ToggleZoom ==> fx.request
        }),
{
}

/// The entry of tags opens on the tags of the current shot, in the form in which they are
/// read again; committing it unchanged leaves them as they are.
pub proof fn the_tag_entry_holds_the_tags<P>(desk: Desk<P>, s: SessionView, input: Seq<char>)
    requires
        0 <= s.current < s.shots.len(),
        s.decision_at(s.current).tags == tags_in(input),
    ensures
        ({
            let fx = effects_of(desk, Action::OpenTagEntry, s, s);
            &&& fx.tag_text is Some
            &&& s.tags_set(s.current, tags_in(fx.tag_text->0)).decision_at(s.current)
                == s.decision_at(s.current)
        }),
{
    committing_the_shown_tags_changes_nothing(input);
}

/// The colour of a filter is that of the lowest tier that it lets through.
pub proof fn a_filter_has_the_colour_of_its_tier(f: Filter, tier: Tier)
    requires
        f != Filter::All,
        fits(f, DecisionView { tier: Some(tier), tags: Seq::empty(), visited: false }),
    ensures
        filter_code(Filter::All) == -1,
        f == Filter::Rejects ==> filter_code(f) == colour_of(Some(tier)),
        f != Filter::Rejects ==> filter_code(f) <= colour_of(Some(tier)),
        f == Filter::Keep ==> filter_code(f) == colour_of(Some(Tier::Keep)),
        f == Filter::Pick ==> filter_code(f) == colour_of(Some(Tier::Pick)),
        f == Filter::Best ==> filter_code(f) == colour_of(Some(Tier::Best)),
{
}

/// The help sheet takes every key: `?` and Escape close it and no other does anything. The
/// apply dialog is closed by Escape, but not while the apply runs.
pub proof fn open_surfaces_are_closed_by_their_keys(text: Seq<char>, control: bool, at: Surfaces)
    ensures
        at.help_open && (text == seq!['?'] || text == "Escape"@) ==> outcome_of(text, control, at)
            is CloseHelp,
        at.help_open && text != seq!['?'] && text != "Escape"@ ==> outcome_of(text, control, at)
            is Swallowed,
        outcome_of(text, control, at) is CloseHelp || outcome_of(text, control, at) is Swallowed
            ==> at.help_open,
        !at.help_open && at.apply_open && text == "Escape"@ ==> (outcome_of(text, control, at)
            is CloseApply <==> !at.apply_running),
        outcome_of(text, control, at) is CloseApply ==> at.apply_open && text == "Escape"@
            && !at.apply_running,
{
    reveal_strlit("?");
    assert("?"@ =~= seq!['?']);
}

/// On the loupe itself a key does what it means.
pub proof fn on_the_loupe_a_key_does_what_it_means(text: Seq<char>, control: bool, at: Surfaces)
    requires
        !at.help_open,
        !at.tag_open,
        !at.apply_open,
    ensures
        ({
            let mods = Modifiers { control, shift: false, alt: false };
            let key = key_of(text);
            &&& key is None ==> outcome_of(text, control, at) is Unbound
            &&& key is Some ==> match meaning(key->0, mods, InputContext::Loupe) {
                Some(a) => outcome_of(text, control, at) == KeyOutcome::Act(a),
                None => outcome_of(text, control, at) is Unbound,
            }
        }),
{
}

/// Undo says so where there is nothing to undo, and otherwise names the shot that is shown and
/// shows the colour that it has again.
pub proof fn undo_says_what_it_did(s: SessionView)
    requires
        0 <= s.current < s.shots.len(),
    ensures
        s.undo.len() == 0 ==> undo_toast(s).text == "nothing to undo"@ && undo_toast(s).code
            == -1,
        s.undo.len() > 0 ==> {
            let stem = s.shots[s.current].stem;
            let back = s.undo.last();
            &&& undo_toast(s).text == "undo "@ + stem
            &&& back.stem == stem ==> undo_toast(s).code == colour_of(back.previous.tier)
        },
{
}

/// What is to be done after an action is what it asks for: only saving saves, only the entry
/// of tags opens it, only the dialogs open themselves, and a change of the filter is noted
/// under the name and the colour of the new one.
pub proof fn an_action_asks_for_what_it_is_for<P>(
    desk: Desk<P>,
    action: Action,
    before: SessionView,
    after: SessionView,
)
    ensures
        ({
            let fx = effects_of(desk, action, before, after);
            let now = desk_after(desk, action, before, after).filter;
            &&& fx.save <==> action == Action::ForceSave && !desk.applied
            &&& fx.tag_text is Some <==> action == Action::OpenTagEntry
            &&& fx.open_apply <==> action == Action::OpenApply
            &&& fx.open_help <==> action == Action::ToggleHelp
            &&& fx.toast is Some <==> action == Action::CycleFilter || action
                == Action::ForceSave || action == Action::Undo
            &&& action == Action::CycleFilter ==> fx.toast->0.text == filter_words(now)
                && fx.toast->0.code == filter_code(now)
            &&& action == Action::ForceSave ==> (fx.save <==> fx.toast->0.text
                == "session saved"@)
            &&& after.current == before.current && action != Action::ToggleZoom ==> !fx.request
        }),
{
    reveal_strlit("session saved");
    reveal_strlit("session already applied (record is in the destination)");
    assert("session saved"@.len() == 13);
    assert("session already applied (record is in the destination)"@.len() == 54);
}

} // verus!

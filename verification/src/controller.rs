//! The interactive controller: a focus-driven state machine over a
//! closed set of modes. It receives one input event at a time, reads
//! the topic tree through a caller-held borrow (one bounded query per
//! event, never across a redraw), mutates the selection state, and
//! reports whether a redraw is due together with the one outside
//! action the caller must perform.

use crate::overview::{
    click_index, select_rel, CursorMove, TopicOverview,
};
use crate::text::views;
use crate::tree::MqttHistory;
use vstd::prelude::*;

verus! {

/// The interaction mode: which keys and clicks mean what.
pub enum ElementInFocus {
    TopicOverview,
    JsonPayload,
    CleanRetainedPopup(String),
    SearchMode,
}

/// One keyboard event, as plain values.
pub enum KeyInput {
    Character(char),
    CtrlCharacter(char),
    Tab,
    BackTab,
    Enter,
    Escape,
    Up,
    Down,
    Left,
    Right,
    Home,
    End,
    PageUp,
    PageDown,
    Backspace,
    Delete,
    Other,
}

/// Whether the display must be redrawn after an event.
pub enum Refresh {
    /// Redraw now.
    Update,
    /// No redraw: the state provably did not change.
    Skip,
    /// Leave the interactive session.
    Quit,
}

/// A movement of the JSON detail pane, delegated to that pane's own
/// tree-navigation logic.
pub enum JsonMove {
    ToggleSelected,
    MoveLeft,
    MoveRight,
    MoveUp,
    MoveDown,
    First,
    Last,
}

/// What the caller must do after a dispatch, besides redrawing.
pub enum Action {
    /// Nothing.
    Idle,
    /// Publish an empty retained message to every history-bearing
    /// topic at or below this one.
    CleanBelow(String),
    /// Apply this movement to the JSON detail pane.
    Json(JsonMove),
    /// Forward the key to the search text input.
    SearchInput,
}

/// A quit request: the letter q, or the interrupt combination.
pub open spec fn is_quit(key: KeyInput) -> bool {
    key == KeyInput::Character('q') || key == KeyInput::CtrlCharacter('c')
}

/// The selected topic's latest payload is a structured document.
pub open spec fn has_json_selected(h: MqttHistory, o: TopicOverview) -> bool {
    match o.selected() {
        Some(t) => h.history_at(t).len() > 0 && h.history_at(t).last().payload is Json,
        None => false,
    }
}

/// One cursor movement applied against the current visible list.
pub open spec fn moved_rel(h: MqttHistory, o: TopicOverview, n: TopicOverview, mv: CursorMove) -> bool {
    select_rel(
        o,
        n,
        h.spec_visible(o.opened(), o.query()),
        mv,
        n.selected() != o.selected(),
    )
}

/// Toggling the expansion of the selected topic.
pub open spec fn toggle_rel(o: TopicOverview, n: TopicOverview) -> bool {
    &&& n.selected() == o.selected()
    &&& n.query() == o.query()
    &&& n.view_state() == o.view_state()
    &&& match o.selected() {
        None => n.opened() == o.opened(),
        Some(t) => if o.opened().contains(t) {
            forall|tt: Seq<char>|
                #[trigger] n.opened().contains(tt) == (o.opened().contains(tt) && tt != t)
        } else {
            forall|tt: Seq<char>|
                #[trigger] n.opened().contains(tt) == (o.opened().contains(tt) || tt == t)
        },
    }
}

/// Expanding the selected topic.
pub open spec fn open_rel(o: TopicOverview, n: TopicOverview) -> bool {
    &&& n.selected() == o.selected()
    &&& n.query() == o.query()
    &&& n.view_state() == o.view_state()
    &&& match o.selected() {
        None => n.opened() == o.opened(),
        Some(t) => forall|tt: Seq<char>|
            #[trigger] n.opened().contains(tt) == (o.opened().contains(tt) || tt == t),
    }
}

/// Collapsing the selected topic, or walking up to its parent when
/// it was already collapsed.
pub open spec fn close_rel(o: TopicOverview, n: TopicOverview) -> bool {
    &&& n.query() == o.query()
    &&& n.view_state() == o.view_state()
    &&& match o.selected() {
        None => n == o,
        Some(t) => if o.opened().contains(t) {
            n.selected() == o.selected() && forall|tt: Seq<char>|
                #[trigger] n.opened().contains(tt) == (o.opened().contains(tt) && tt != t)
        } else {
            n.opened() == o.opened() && n.selected() == crate::overview::spec_parent(t)
        },
    }
}

/// Running a search: the result set becomes the query filter and is
/// merged into the opened set, so every match becomes visible.
pub open spec fn search_rel(h: MqttHistory, o: TopicOverview, n: TopicOverview, word: Seq<char>) -> bool {
    &&& n.selected() == o.selected()
    &&& n.view_state() == o.view_state()
    &&& n.query() == Some(h.spec_search(word))
    &&& forall|tt: Seq<char>|
        #[trigger] n.opened().contains(tt) == (o.opened().contains(tt) || h.spec_search(
            word,
        ).contains(tt))
}

/// A click landing on a visible row: select that row, or toggle it
/// when it was the selected row already.
pub open spec fn click_rel(h: MqttHistory, o: TopicOverview, n: TopicOverview, idx: usize) -> bool {
    exists|mid: TopicOverview|
        #![trigger mid.view_state()]
        {
            &&& select_rel(
                o,
                mid,
                h.spec_visible(o.opened(), o.query()),
                CursorMove::Absolute(idx),
                mid.selected() != o.selected(),
            )
            &&& if mid.selected() != o.selected() {
                n == mid
            } else {
                toggle_rel(mid, n)
            }
        }
}

/// The top-level focus state machine.
pub struct App {
    /// The current interaction mode.
    pub focus: ElementInFocus,
    /// The selection and navigation state of the topic pane.
    pub topic_overview: TopicOverview,
}

/// What one key event does, for every mode and key: the complete
/// transition relation of the focus state machine.
pub open spec fn on_key_spec(
    h: MqttHistory,
    o: App,
    n: App,
    key: KeyInput,
    text: Seq<char>,
    r: Refresh,
    a: Action,
) -> bool {
    match o.focus {
        ElementInFocus::TopicOverview => if is_quit(key) {
            r is Quit && n == o && a is Idle
        } else if key == KeyInput::Tab || key == KeyInput::BackTab {
            &&& r is Update
            &&& a is Idle
            &&& n.topic_overview == o.topic_overview
            &&& n.focus == (if has_json_selected(h, o.topic_overview) {
                ElementInFocus::JsonPayload
            } else {
                ElementInFocus::TopicOverview
            })
        } else if key == KeyInput::Enter || key == KeyInput::Character(' ') {
            r is Update && a is Idle && n.focus is TopicOverview && toggle_rel(
                o.topic_overview,
                n.topic_overview,
            )
        } else if key == KeyInput::Down || key == KeyInput::Character('j') {
            r is Update && a is Idle && n.focus is TopicOverview && moved_rel(
                h,
                o.topic_overview,
                n.topic_overview,
                CursorMove::OneDown,
            )
        } else if key == KeyInput::Up || key == KeyInput::Character('k') {
            r is Update && a is Idle && n.focus is TopicOverview && moved_rel(
                h,
                o.topic_overview,
                n.topic_overview,
                CursorMove::OneUp,
            )
        } else if key == KeyInput::Left || key == KeyInput::Character('h') {
            r is Update && a is Idle && n.focus is TopicOverview && close_rel(
                o.topic_overview,
                n.topic_overview,
            )
        } else if key == KeyInput::Right || key == KeyInput::Character('l') {
            r is Update && a is Idle && n.focus is TopicOverview && open_rel(
                o.topic_overview,
                n.topic_overview,
            )
        } else if key == KeyInput::Home {
            r is Update && a is Idle && n.focus is TopicOverview && moved_rel(
                h,
                o.topic_overview,
                n.topic_overview,
                CursorMove::Absolute(0),
            )
        } else if key == KeyInput::End {
            r is Update && a is Idle && n.focus is TopicOverview && moved_rel(
                h,
                o.topic_overview,
                n.topic_overview,
                CursorMove::Absolute(usize::MAX),
            )
        } else if key == KeyInput::PageUp || key == KeyInput::CtrlCharacter('u') {
            r is Update && a is Idle && n.focus is TopicOverview && moved_rel(
                h,
                o.topic_overview,
                n.topic_overview,
                CursorMove::PageUp,
            )
        } else if key == KeyInput::PageDown || key == KeyInput::CtrlCharacter('d') {
            r is Update && a is Idle && n.focus is TopicOverview && moved_rel(
                h,
                o.topic_overview,
                n.topic_overview,
                CursorMove::PageDown,
            )
        } else if key == KeyInput::Backspace || key == KeyInput::Delete {
            match o.topic_overview.selected() {
                Some(t) => r is Update && a is Idle && n.topic_overview == o.topic_overview && (
                n.focus matches ElementInFocus::CleanRetainedPopup(s) && s@ == t),
                None => r is Skip && n == o && a is Idle,
            }
        } else if key == KeyInput::Character('/') {
            r is Update && a is Idle && n.topic_overview == o.topic_overview
                && n.focus is SearchMode
        } else {
            r is Skip && n == o && a is Idle
        },
        ElementInFocus::JsonPayload => if is_quit(key) {
            r is Quit && n == o && a is Idle
        } else if key == KeyInput::Tab || key == KeyInput::BackTab {
            r is Update && a is Idle && n.topic_overview == o.topic_overview
                && n.focus is TopicOverview
        } else if key == KeyInput::Enter || key == KeyInput::Character(' ') {
            r is Update && n == o && a == Action::Json(JsonMove::ToggleSelected)
        } else if key == KeyInput::Down || key == KeyInput::Character('j') {
            r is Update && n == o && a == Action::Json(JsonMove::MoveDown)
        } else if key == KeyInput::Up || key == KeyInput::Character('k') {
            r is Update && n == o && a == Action::Json(JsonMove::MoveUp)
        } else if key == KeyInput::Left || key == KeyInput::Character('h') {
            r is Update && n == o && a == Action::Json(JsonMove::MoveLeft)
        } else if key == KeyInput::Right || key == KeyInput::Character('l') {
            r is Update && n == o && a == Action::Json(JsonMove::MoveRight)
        } else if key == KeyInput::Home {
            r is Update && n == o && a == Action::Json(JsonMove::First)
        } else if key == KeyInput::End {
            r is Update && n == o && a == Action::Json(JsonMove::Last)
        } else {
            r is Skip && n == o && a is Idle
        },
        ElementInFocus::CleanRetainedPopup(t) => {
            &&& r is Update
            &&& n.topic_overview == o.topic_overview
            &&& n.focus is TopicOverview
            &&& a == (if key == KeyInput::Enter || key == KeyInput::Character(' ') {
                Action::CleanBelow(t)
            } else {
                Action::Idle
            })
        },
        ElementInFocus::SearchMode => if key == KeyInput::Escape {
            r is Update && a is Idle && n.topic_overview == o.topic_overview
                && n.focus is TopicOverview
        } else if key == KeyInput::Enter {
            r is Update && a is Idle && n.focus is TopicOverview && search_rel(
                h,
                o.topic_overview,
                n.topic_overview,
                text,
            )
        } else {
            r is Update && n == o && a is SearchInput
        },
    }
}

impl App {
    /// The selection state is well-formed.
    pub open spec fn wf(self) -> bool {
        self.topic_overview.wf()
    }

    /// A fresh controller in the topic overview, with empty
    /// selection state.
    pub fn new() -> (r: App)
        ensures
            r.wf(),
            r.focus is TopicOverview,
            r.topic_overview.opened() == Seq::<Seq<char>>::empty(),
            r.topic_overview.selected() is None,
            r.topic_overview.query() is None,
    {
        App { focus: ElementInFocus::TopicOverview, topic_overview: TopicOverview::new() }
    }

    /// Move the focus to the JSON detail pane (a click landed
    /// there).
    pub fn focus_json(&mut self)
        requires
            old(self).wf(),
        ensures
            final(self).wf(),
            final(self).focus is JsonPayload,
            final(self).topic_overview == old(self).topic_overview,
    {
        self.focus = ElementInFocus::JsonPayload;
    }

    /// The structured document of the selected topic's latest
    /// payload, when there is one.
    pub fn get_json_of_current_topic<'a>(&self, history: &'a MqttHistory) -> (r: Option<
        &'a json::JsonValue,
    >)
        requires
            history.wf(),
        ensures
            r is Some <==> has_json_selected(*history, self.topic_overview),
    {
        match self.topic_overview.get_selected() {
            Some(topic) => match history.get_last(topic.as_str()) {
                Some(e) => e.payload.as_optional_json(),
                None => None,
            },
            None => None,
        }
    }

    /// Dispatch one key event in the current mode.
    pub fn on_key(&mut self, history: &MqttHistory, key: KeyInput, search_text: &str) -> (r: (
        Refresh,
        Action,
    ))
        requires
            history.wf(),
            old(self).wf(),
        ensures
            final(self).wf(),
            on_key_spec(*history, *old(self), *final(self), key, search_text@, r.0, r.1),
    {
        let quit = match key {
            KeyInput::Character(c) => c == 'q',
            KeyInput::CtrlCharacter(c) => c == 'c',
            _ => false,
        };
        match &self.focus {
            ElementInFocus::TopicOverview => {
                if quit {
                    return (Refresh::Quit, Action::Idle);
                }
                match key {
                    KeyInput::Tab | KeyInput::BackTab => {
                        let is_json = self.get_json_of_current_topic(history).is_some();
                        if is_json {
                            self.focus = ElementInFocus::JsonPayload;
                        }
                        (Refresh::Update, Action::Idle)
                    },
                    KeyInput::Enter | KeyInput::Character(' ') => {
                        self.topic_overview.toggle();
                        (Refresh::Update, Action::Idle)
                    },
                    KeyInput::Down | KeyInput::Character('j') => {
                        let visible = history.get_visible_topics(
                            self.topic_overview.get_opened(),
                            self.topic_overview.get_query_items(),
                        );
                        self.topic_overview.change_selected(&visible, CursorMove::OneDown);
                        (Refresh::Update, Action::Idle)
                    },
                    KeyInput::Up | KeyInput::Character('k') => {
                        let visible = history.get_visible_topics(
                            self.topic_overview.get_opened(),
                            self.topic_overview.get_query_items(),
                        );
                        self.topic_overview.change_selected(&visible, CursorMove::OneUp);
                        (Refresh::Update, Action::Idle)
                    },
                    KeyInput::Left | KeyInput::Character('h') => {
                        self.topic_overview.close();
                        (Refresh::Update, Action::Idle)
                    },
                    KeyInput::Right | KeyInput::Character('l') => {
                        self.topic_overview.open();
                        (Refresh::Update, Action::Idle)
                    },
                    KeyInput::Home => {
                        let visible = history.get_visible_topics(
                            self.topic_overview.get_opened(),
                            self.topic_overview.get_query_items(),
                        );
                        self.topic_overview.change_selected(&visible, CursorMove::Absolute(0));
                        (Refresh::Update, Action::Idle)
                    },
                    KeyInput::End => {
                        let visible = history.get_visible_topics(
                            self.topic_overview.get_opened(),
                            self.topic_overview.get_query_items(),
                        );
                        self.topic_overview.change_selected(
                            &visible,
                            CursorMove::Absolute(usize::MAX),
                        );
                        (Refresh::Update, Action::Idle)
                    },
                    KeyInput::PageUp | KeyInput::CtrlCharacter('u') => {
                        let visible = history.get_visible_topics(
                            self.topic_overview.get_opened(),
                            self.topic_overview.get_query_items(),
                        );
                        self.topic_overview.change_selected(&visible, CursorMove::PageUp);
                        (Refresh::Update, Action::Idle)
                    },
                    KeyInput::PageDown | KeyInput::CtrlCharacter('d') => {
                        let visible = history.get_visible_topics(
                            self.topic_overview.get_opened(),
                            self.topic_overview.get_query_items(),
                        );
                        self.topic_overview.change_selected(&visible, CursorMove::PageDown);
                        (Refresh::Update, Action::Idle)
                    },
                    KeyInput::Backspace | KeyInput::Delete => {
                        match self.topic_overview.get_selected() {
                            Some(topic) => {
                                let t = topic.clone();
                                self.focus = ElementInFocus::CleanRetainedPopup(t);
                                (Refresh::Update, Action::Idle)
                            },
                            None => (Refresh::Skip, Action::Idle),
                        }
                    },
                    KeyInput::Character('/') => {
                        self.focus = ElementInFocus::SearchMode;
                        (Refresh::Update, Action::Idle)
                    },
                    _ => (Refresh::Skip, Action::Idle),
                }
            },
            ElementInFocus::JsonPayload => {
                if quit {
                    return (Refresh::Quit, Action::Idle);
                }
                match key {
                    KeyInput::Tab | KeyInput::BackTab => {
                        self.focus = ElementInFocus::TopicOverview;
                        (Refresh::Update, Action::Idle)
                    },
                    KeyInput::Enter | KeyInput::Character(' ') => (
                        Refresh::Update,
                        Action::Json(JsonMove::ToggleSelected),
                    ),
                    KeyInput::Down | KeyInput::Character('j') => (
                        Refresh::Update,
                        Action::Json(JsonMove::MoveDown),
                    ),
                    KeyInput::Up | KeyInput::Character('k') => (
                        Refresh::Update,
                        Action::Json(JsonMove::MoveUp),
                    ),
                    KeyInput::Left | KeyInput::Character('h') => (
                        Refresh::Update,
                        Action::Json(JsonMove::MoveLeft),
                    ),
                    KeyInput::Right | KeyInput::Character('l') => (
                        Refresh::Update,
                        Action::Json(JsonMove::MoveRight),
                    ),
                    KeyInput::Home => (Refresh::Update, Action::Json(JsonMove::First)),
                    KeyInput::End => (Refresh::Update, Action::Json(JsonMove::Last)),
                    _ => (Refresh::Skip, Action::Idle),
                }
            },
            ElementInFocus::CleanRetainedPopup(topic) => {
                let confirmed = match key {
                    KeyInput::Enter | KeyInput::Character(' ') => true,
                    _ => false,
                };
                let action = if confirmed {
                    Action::CleanBelow(topic.clone())
                } else {
                    Action::Idle
                };
                self.focus = ElementInFocus::TopicOverview;
                (Refresh::Update, action)
            },
            ElementInFocus::SearchMode => {
                match key {
                    KeyInput::Escape => {
                        self.focus = ElementInFocus::TopicOverview;
                        (Refresh::Update, Action::Idle)
                    },
                    KeyInput::Enter => {
                        let found = history.search(search_text);
                        let data: Vec<String> = match found {
                            Some(v) => v,
                            None => Vec::new(),
                        };
                        proof {
                            assert(views(data@) =~= history.spec_search(search_text@));
                        }
                        self.topic_overview.set_opened(&data);
                        self.focus = ElementInFocus::TopicOverview;
                        (Refresh::Update, Action::Idle)
                    },
                    _ => (Refresh::Update, Action::SearchInput),
                }
            },
        }
    }

    /// Scroll up one step: a cursor move in the topic overview, a
    /// pane movement in the JSON view, an abort in the popup.
    pub fn on_up(&mut self, history: &MqttHistory) -> (r: (Refresh, Action))
        requires
            history.wf(),
            old(self).wf(),
        ensures
            final(self).wf(),
            r.0 is Update,
            match old(self).focus {
                ElementInFocus::TopicOverview => final(self).focus is TopicOverview && r.1 is Idle
                    && moved_rel(
                    *history,
                    old(self).topic_overview,
                    final(self).topic_overview,
                    CursorMove::OneUp,
                ),
                ElementInFocus::JsonPayload => *final(self) == *old(self) && r.1 == Action::Json(
                    JsonMove::MoveUp,
                ),
                ElementInFocus::CleanRetainedPopup(_) => final(self).focus is TopicOverview
                    && final(self).topic_overview == old(self).topic_overview && r.1 is Idle,
                ElementInFocus::SearchMode => *final(self) == *old(self) && r.1 is Idle,
            },
    {
        match &self.focus {
            ElementInFocus::TopicOverview => {
                let visible = history.get_visible_topics(
                    self.topic_overview.get_opened(),
                    self.topic_overview.get_query_items(),
                );
                self.topic_overview.change_selected(&visible, CursorMove::OneUp);
                (Refresh::Update, Action::Idle)
            },
            ElementInFocus::JsonPayload => (Refresh::Update, Action::Json(JsonMove::MoveUp)),
            ElementInFocus::CleanRetainedPopup(_) => {
                self.focus = ElementInFocus::TopicOverview;
                (Refresh::Update, Action::Idle)
            },
            ElementInFocus::SearchMode => (Refresh::Update, Action::Idle),
        }
    }

    /// Scroll down one step; the counterpart of `on_up`.
    pub fn on_down(&mut self, history: &MqttHistory) -> (r: (Refresh, Action))
        requires
            history.wf(),
            old(self).wf(),
        ensures
            final(self).wf(),
            r.0 is Update,
            match old(self).focus {
                ElementInFocus::TopicOverview => final(self).focus is TopicOverview && r.1 is Idle
                    && moved_rel(
                    *history,
                    old(self).topic_overview,
                    final(self).topic_overview,
                    CursorMove::OneDown,
                ),
                ElementInFocus::JsonPayload => *final(self) == *old(self) && r.1 == Action::Json(
                    JsonMove::MoveDown,
                ),
                ElementInFocus::CleanRetainedPopup(_) => final(self).focus is TopicOverview
                    && final(self).topic_overview == old(self).topic_overview && r.1 is Idle,
                ElementInFocus::SearchMode => *final(self) == *old(self) && r.1 is Idle,
            },
    {
        match &self.focus {
            ElementInFocus::TopicOverview => {
                let visible = history.get_visible_topics(
                    self.topic_overview.get_opened(),
                    self.topic_overview.get_query_items(),
                );
                self.topic_overview.change_selected(&visible, CursorMove::OneDown);
                (Refresh::Update, Action::Idle)
            },
            ElementInFocus::JsonPayload => (Refresh::Update, Action::Json(JsonMove::MoveDown)),
            ElementInFocus::CleanRetainedPopup(_) => {
                self.focus = ElementInFocus::TopicOverview;
                (Refresh::Update, Action::Idle)
            },
            ElementInFocus::SearchMode => (Refresh::Update, Action::Idle),
        }
    }

    /// A click: a hit on a visible topic row selects it, or toggles
    /// it when it was the selected row already, and focuses the
    /// topic overview. A miss changes nothing — the caller may still
    /// test the JSON detail pane's own geometry.
    pub fn on_click(&mut self, history: &MqttHistory, column: u16, row: u16) -> (r: (
        Refresh,
        Action,
    ))
        requires
            history.wf(),
            old(self).wf(),
        ensures
            final(self).wf(),
            r.1 is Idle,
            match click_index(old(self).topic_overview, column, row) {
                Some(idx) => r.0 is Update && final(self).focus is TopicOverview && click_rel(
                    *history,
                    old(self).topic_overview,
                    final(self).topic_overview,
                    idx as usize,
                ),
                None => r.0 is Skip && *final(self) == *old(self),
            },
    {
        match self.topic_overview.index_of_click(column, row) {
            Some(index) => {
                let visible = history.get_visible_topics(
                    self.topic_overview.get_opened(),
                    self.topic_overview.get_query_items(),
                );
                let changed = self.topic_overview.change_selected(
                    &visible,
                    CursorMove::Absolute(index),
                );
                let ghost mid = self.topic_overview;
                if !changed {
                    self.topic_overview.toggle();
                }
                self.focus = ElementInFocus::TopicOverview;
                proof {
                    assert(select_rel(
                        old(self).topic_overview,
                        mid,
                        history.spec_visible(
                            old(self).topic_overview.opened(),
                            old(self).topic_overview.query(),
                        ),
                        CursorMove::Absolute(index),
                        mid.selected() != old(self).topic_overview.selected(),
                    ));
                }
                (Refresh::Update, Action::Idle)
            },
            None => (Refresh::Skip, Action::Idle),
        }
    }
}

} // verus!

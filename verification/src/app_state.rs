//! Application state and the key-event state machine.
//!
//! `AppState` holds the loaded text, the derived analysis and the search
//! and navigation state.  Its behaviour is specified against `StateModel`,
//! a ghost snapshot of the state, and `step`, the mathematical transition
//! function of the key-handling state machine.

use vstd::prelude::*;

use crate::text_analysis::{
    analyze_structure, ci_matching_lines, extract_keywords, keywords_of, lines_of, matching_lines,
    push_char, search, search_case_insensitive, stanza_count, tokens_of, entry_views,
    string_views, StructuralAnalysisResults,
};

verus! {

/// A discrete key event, as the state machine sees it.  The event loop maps
/// the terminal backend's key codes onto this type; every key it does not
/// distinguish arrives as `Other` and is a guaranteed no-op.
#[derive(Clone, Copy, Debug, PartialEq, Eq, Structural)]
pub enum KeyInput {
    Char(char),
    Esc,
    Enter,
    Backspace,
    Tab,
    Up,
    Down,
    Other,
}

/// The mathematical value of a `StructuralAnalysisResults`.
pub ghost struct StructureModel {
    pub lines: nat,
    pub words: nat,
    pub characters: nat,
    pub stanzas: nat,
}

impl View for StructuralAnalysisResults {
    type V = StructureModel;

    open spec fn view(&self) -> StructureModel {
        StructureModel {
            lines: self.lines as nat,
            words: self.words as nat,
            characters: self.characters as nat,
            stanzas: self.stanzas as nat,
        }
    }
}

/// The structural counts of a text, as the analysis computes them.
pub open spec fn structure_of(s: Seq<char>) -> StructureModel {
    StructureModel {
        lines: lines_of(s).len(),
        words: tokens_of(s).len(),
        characters: s.len(),
        stanzas: stanza_count(s),
    }
}

/// The mathematical value of an `AppState`.
#[verifier::ext_equal]
pub ghost struct StateModel {
    pub file_content: Seq<char>,
    pub file_name: Seq<char>,
    pub search_query: Seq<char>,
    pub search_results: Seq<Seq<char>>,
    pub keywords: Seq<(Seq<char>, nat)>,
    pub structural_analysis: StructureModel,
    pub current_tab: nat,
    pub search_mode: bool,
    pub case_sensitive: bool,
    pub selected_result: nat,
}

/// The application state: loaded content, derived analysis, search state
/// and navigation state.  One owner (the event loop) mutates it, only
/// through the methods below.
pub struct AppState {
    pub file_content: String,
    pub file_name: String,
    pub search_query: String,
    pub search_results: Vec<String>,
    pub keywords: Vec<(String, usize)>,
    pub structural_analysis: StructuralAnalysisResults,
    pub current_tab: usize,
    pub search_mode: bool,
    pub case_sensitive: bool,
    pub selected_result: usize,
}

impl View for AppState {
    type V = StateModel;

    open spec fn view(&self) -> StateModel {
        StateModel {
            file_content: self.file_content@,
            file_name: self.file_name@,
            search_query: self.search_query@,
            search_results: string_views(self.search_results@),
            keywords: entry_views(self.keywords@),
            structural_analysis: self.structural_analysis@,
            current_tab: self.current_tab as nat,
            search_mode: self.search_mode,
            case_sensitive: self.case_sensitive,
            selected_result: self.selected_result as nat,
        }
    }
}

/// Well-formedness: the tab index stays below four, and the selected result
/// is a valid index (or zero when there are no results).
pub open spec fn wf(m: StateModel) -> bool {
    &&& m.current_tab < 4
    &&& (m.selected_result < m.search_results.len() || m.selected_result == 0)
}

/// The state at startup: nothing loaded, case-sensitive search, first tab.
pub open spec fn init_state() -> StateModel {
    StateModel {
        file_content: Seq::empty(),
        file_name: "No file loaded"@,
        search_query: Seq::empty(),
        search_results: Seq::empty(),
        keywords: Seq::empty(),
        structural_analysis: StructureModel { lines: 0, words: 0, characters: 0, stanzas: 0 },
        current_tab: 0,
        search_mode: false,
        case_sensitive: true,
        selected_result: 0,
    }
}

/// Recomputes the search results from the query, the content and the case
/// mode: an empty query yields no results, otherwise the matching lines;
/// the selection always resets to the first row.
pub open spec fn recompute(m: StateModel) -> StateModel {
    StateModel {
        search_results: if m.search_query.len() == 0 {
            Seq::empty()
        } else if m.case_sensitive {
            matching_lines(m.search_query, m.file_content)
        } else {
            ci_matching_lines(m.search_query, m.file_content)
        },
        selected_result: 0,
        ..m
    }
}

/// The key-event transition function: the state after the event, and
/// whether the session keeps running (`false` exactly on `q` or `Esc`
/// outside of search entry).
pub open spec fn step(m: StateModel, key: KeyInput) -> (StateModel, bool) {
    match key {
        KeyInput::Char(c) => if m.search_mode {
            (recompute(StateModel { search_query: m.search_query.push(c), ..m }), true)
        } else if c == 'q' {
            (m, false)
        } else if c == '/' {
            (StateModel { search_mode: true, ..m }, true)
        } else if c == 'c' {
            (recompute(StateModel { case_sensitive: !m.case_sensitive, ..m }), true)
        } else {
            (m, true)
        },
        KeyInput::Esc => if m.search_mode {
            (StateModel { search_mode: false, ..m }, true)
        } else {
            (m, false)
        },
        KeyInput::Tab => if !m.search_mode {
            (StateModel { current_tab: (m.current_tab + 1) % 4, ..m }, true)
        } else {
            (m, true)
        },
        KeyInput::Enter => if m.search_mode {
            (recompute(StateModel { search_mode: false, ..m }), true)
        } else {
            (m, true)
        },
        KeyInput::Backspace => if m.search_mode {
            (
                recompute(
                    StateModel {
                        search_query: if m.search_query.len() > 0 {
                            m.search_query.drop_last()
                        } else {
                            m.search_query
                        },
                        ..m
                    },
                ),
                true,
            )
        } else {
            (m, true)
        },
        KeyInput::Up => if !m.search_mode && m.current_tab == 2 && m.search_results.len() > 0 {
            (
                StateModel {
                    selected_result: if m.selected_result > 0 {
                        (m.selected_result - 1) as nat
                    } else {
                        m.selected_result
                    },
                    ..m
                },
                true,
            )
        } else {
            (m, true)
        },
        KeyInput::Down => if !m.search_mode && m.current_tab == 2 && m.search_results.len() > 0 {
            (
                StateModel {
                    selected_result: if m.selected_result + 1 < m.search_results.len() {
                        m.selected_result + 1
                    } else {
                        m.selected_result
                    },
                    ..m
                },
                true,
            )
        } else {
            (m, true)
        },
        KeyInput::Other => (m, true),
    }
}

/// The state after loading a text: content, name, analysis and top-ten
/// keywords are replaced, then the search results are recomputed.
pub open spec fn load_model(m: StateModel, content: Seq<char>, name: Seq<char>) -> StateModel {
    recompute(
        StateModel {
            file_content: content,
            file_name: name,
            structural_analysis: structure_of(content),
            keywords: keywords_of(content, 10),
            ..m
        },
    )
}

/// Relies on `String::pop`: removes and returns the last character, or
/// returns `None` when the string is empty.
#[verifier::external_body]
fn pop_char(s: &mut String) -> (r: Option<char>)
    ensures
        old(s)@.len() == 0 ==> final(s)@ == old(s)@ && r is None,
        old(s)@.len() > 0 ==> final(s)@ == old(s)@.drop_last() && r == Some(old(s)@.last()),
{
    s.pop()
}

impl Default for AppState {
    /// The startup state: no content, the sentinel file name, empty query
    /// and results, case-sensitive search, first tab.
    fn default() -> (r: Self)
        ensures
            r@ == init_state(),
    {
        let r = AppState {
            file_content: String::new(),
            file_name: "No file loaded".to_owned(),
            search_query: String::new(),
            search_results: Vec::new(),
            keywords: Vec::new(),
            structural_analysis: StructuralAnalysisResults {
                lines: 0,
                words: 0,
                characters: 0,
                stanzas: 0,
            },
            current_tab: 0,
            search_mode: false,
            case_sensitive: true,
            selected_result: 0,
        };
        proof {
            assert(string_views(Seq::<String>::empty()) =~= Seq::<Seq<char>>::empty());
            assert(entry_views(Seq::<(String, usize)>::empty()) =~= Seq::<(Seq<char>, nat)>::empty());
            assert(r@ =~= init_state());
        }
        r
    }
}

impl AppState {
    /// Recomputes `search_results` from the current query, content and case
    /// mode, and resets the selection to the first row.
    pub fn update_search(&mut self)
        requires
            wf(old(self)@),
        ensures
            final(self)@ == recompute(old(self)@),
            wf(final(self)@),
    {
        if !self.search_query.as_str().is_empty() {
            if self.case_sensitive {
                self.search_results = search(
                    self.search_query.as_str(),
                    self.file_content.as_str(),
                );
            } else {
                self.search_results = search_case_insensitive(
                    self.search_query.as_str(),
                    self.file_content.as_str(),
                );
            }
        } else {
            self.search_results = Vec::new();
            proof {
                assert(string_views(self.search_results@) =~= Seq::<Seq<char>>::empty());
            }
        }
        self.selected_result = 0;
        proof {
            assert(self@ =~= recompute(old(self)@));
        }
    }

    /// Replaces the loaded text: stores the content and display name,
    /// recomputes the structural analysis and the top-ten keywords, and
    /// refreshes the search results.
    pub fn load_content(&mut self, content: String, file_name: String)
        requires
            wf(old(self)@),
        ensures
            final(self)@ == load_model(old(self)@, content@, file_name@),
            wf(final(self)@),
    {
        let analysis = analyze_structure(content.as_str());
        let keywords = extract_keywords(content.as_str(), 10);
        self.file_content = content;
        self.file_name = file_name;
        self.structural_analysis = analysis;
        self.keywords = keywords;
        proof {
            assert(self@ =~= StateModel {
                file_content: self.file_content@,
                file_name: self.file_name@,
                structural_analysis: structure_of(self.file_content@),
                keywords: keywords_of(self.file_content@, 10),
                ..old(self)@
            });
        }
        self.update_search();
    }

    /// Applies one key event to the state and reports whether the session
    /// keeps running, exactly as the transition function `step` says.
    pub fn handle_key(&mut self, key: KeyInput) -> (continue_running: bool)
        requires
            wf(old(self)@),
        ensures
            final(self)@ == step(old(self)@, key).0,
            continue_running == step(old(self)@, key).1,
            wf(final(self)@),
    {
        match key {
            KeyInput::Char(c) => {
                if self.search_mode {
                    push_char(&mut self.search_query, c);
                    proof {
                        assert(self@ =~= StateModel {
                            search_query: old(self)@.search_query.push(c),
                            ..old(self)@
                        });
                    }
                    self.update_search();
                    true
                } else if c == 'q' {
                    false
                } else if c == '/' {
                    self.search_mode = true;
                    proof {
                        assert(self@ =~= step(old(self)@, key).0);
                    }
                    true
                } else if c == 'c' {
                    self.case_sensitive = !self.case_sensitive;
                    proof {
                        assert(self@ =~= StateModel {
                            case_sensitive: !old(self)@.case_sensitive,
                            ..old(self)@
                        });
                    }
                    self.update_search();
                    true
                } else {
                    true
                }
            },
            KeyInput::Esc => {
                if self.search_mode {
                    self.search_mode = false;
                    proof {
                        assert(self@ =~= step(old(self)@, key).0);
                    }
                    true
                } else {
                    false
                }
            },
            KeyInput::Tab => {
                if !self.search_mode {
                    self.current_tab = (self.current_tab + 1) % 4;
                    proof {
                        assert(self@ =~= step(old(self)@, key).0);
                    }
                }
                true
            },
            KeyInput::Enter => {
                if self.search_mode {
                    self.search_mode = false;
                    proof {
                        assert(self@ =~= StateModel { search_mode: false, ..old(self)@ });
                    }
                    self.update_search();
                }
                true
            },
            KeyInput::Backspace => {
                if self.search_mode {
                    pop_char(&mut self.search_query);
                    proof {
                        assert(self@ =~= StateModel {
                            search_query: if old(self)@.search_query.len() > 0 {
                                old(self)@.search_query.drop_last()
                            } else {
                                old(self)@.search_query
                            },
                            ..old(self)@
                        });
                    }
                    self.update_search();
                }
                true
            },
            KeyInput::Up => {
                if !self.search_mode && self.current_tab == 2 {
                    if !self.search_results.is_empty() {
                        if self.selected_result > 0 {
                            self.selected_result = self.selected_result - 1;
                        }
                        proof {
                            assert(self@ =~= step(old(self)@, key).0);
                        }
                    }
                }
                true
            },
            KeyInput::Down => {
                if !self.search_mode && self.current_tab == 2 {
                    if !self.search_results.is_empty() {
                        if self.selected_result < self.search_results.len() - 1 {
                            self.selected_result = self.selected_result + 1;
                        }
                        proof {
                            assert(self@ =~= step(old(self)@, key).0);
                        }
                    }
                }
                true
            },
            KeyInput::Other => true,
        }
    }
}

/// Recomputing the search results is idempotent: a second recompute with
/// unchanged query, content and case sensitivity changes nothing.
pub proof fn lemma_recompute_idempotent(m: StateModel)
    ensures
        recompute(recompute(m)) == recompute(m),
{
    assert(recompute(recompute(m)) =~= recompute(m));
}

/// Every key event keeps a well-formed state well formed.
pub proof fn lemma_step_preserves_wf(m: StateModel, key: KeyInput)
    requires
        wf(m),
    ensures
        wf(step(m, key).0),
{
}

/// The handler signals stop exactly on `q` or `Esc` outside of search
/// entry: the sole exit condition of the interactive session.
pub proof fn lemma_stop_signal(m: StateModel, key: KeyInput)
    ensures
        step(m, key).1 == false <==> (!m.search_mode && (key == KeyInput::Char('q') || key
            == KeyInput::Esc)),
{
}

/// In normal mode, `q` signals stop, whatever the rest of the state holds.
pub proof fn lemma_quit_from_normal(m: StateModel)
    requires
        !m.search_mode,
    ensures
        step(m, KeyInput::Char('q')).1 == false,
{
}

/// Moving the selection down at the last result row leaves the state
/// unchanged: the selection clamps instead of wrapping.
pub proof fn lemma_down_clamps(m: StateModel)
    requires
        wf(m),
        !m.search_mode,
        m.current_tab == 2,
        m.search_results.len() > 0,
        m.selected_result == m.search_results.len() - 1,
    ensures
        step(m, KeyInput::Down).0 == m,
{
    assert(step(m, KeyInput::Down).0 =~= m);
}

/// Moving the selection up at the first result row leaves the state
/// unchanged: the selection clamps instead of wrapping.
pub proof fn lemma_up_clamps(m: StateModel)
    requires
        !m.search_mode,
        m.current_tab == 2,
        m.search_results.len() > 0,
        m.selected_result == 0,
    ensures
        step(m, KeyInput::Up).0 == m,
{
    assert(step(m, KeyInput::Up).0 =~= m);
}

} // verus!

//! Decisions of the terminal loop: how high the view is, how a text is
//! scrolled, and what is said after a snippet was edited.

use vstd::prelude::*;
use crate::browse;
use crate::domain;
use crate::domain::SnippetId;
use crate::execute::app;
use crate::execute::app::ExecutionApp;
use crate::execute::suggestions::SuggestionProvider;
use crate::index;
use crate::index::SnippetIndex;
use crate::keybinds::{KeyCode, KeyEvent};

verus! {

broadcast use vstd::string::group_string_axioms;

/// The height of the inline view: the configured one, at least one row.
pub fn compact_viewport_height(max_height: u16) -> (height: u16)
    ensures
        height == (if max_height == 0 {
            1
        } else {
            max_height as int
        }),
{
    if max_height == 0 {
        1
    } else {
        max_height
    }
}

/// A third of a screen, at least six rows, within a limit of at least one row.
pub open spec fn third_of(rows: int, max_height: int) -> int {
    let third = if rows / 3 < 6 {
        6
    } else {
        rows / 3
    };
    let limit = if max_height < 1 {
        1
    } else {
        max_height
    };
    if third < limit {
        third
    } else {
        limit
    }
}

/// The height of an inline view that takes a third of the screen.
pub fn third_of_screen(rows: u16, max_height: u16) -> (height: u16)
    ensures
        height == third_of(rows as int, max_height as int),
{
    let third: u16 = if rows / 3 < 6 {
        6
    } else {
        rows / 3
    };
    let limit = compact_viewport_height(max_height);
    if third < limit {
        third
    } else {
        limit
    }
}

/// How far a text of some lines can be scrolled in a framed area.
pub open spec fn furthest(line_count: int, height: int) -> int {
    let room = if height < 2 {
        0
    } else {
        height - 2
    };
    if line_count < room {
        0
    } else {
        line_count - room
    }
}

/// Keeps a scroll position so that the area is filled as far as it can be.
pub fn clamp_scroll(scroll: u16, line_count: u16, height: u16) -> (out: u16)
    ensures
        out == (if scroll <= furthest(line_count as int, height as int) {
            scroll as int
        } else {
            furthest(line_count as int, height as int)
        }),
{
    let room: u16 = if height < 2 {
        0
    } else {
        height - 2
    };
    let most: u16 = if line_count < room {
        0
    } else {
        line_count - room
    };
    if scroll <= most {
        scroll
    } else {
        most
    }
}

/// What a key does while a text is shown.
#[derive(Debug, Clone, Copy, PartialEq, Eq, Structural)]
pub enum ScrollStep {
    /// The text is left.
    Leave,
    /// It is shown from here on.
    To(u16),
}

/// A scroll position moved by some lines, within what a position can be.
pub open spec fn moved(scroll: u16, by: int) -> ScrollStep {
    let to = scroll + by;
    ScrollStep::To(
        if to < 0 {
            0
        } else if to > u16::MAX {
            u16::MAX
        } else {
            to as u16
        },
    )
}

/// What a key does while a text is shown.
pub open spec fn scroll_effect(scroll: u16, key: KeyEvent) -> ScrollStep {
    match key.chord.code {
        KeyCode::Char('c') if key.chord.control => ScrollStep::Leave,
        KeyCode::Esc | KeyCode::Char('q') | KeyCode::Char('Q') => ScrollStep::Leave,
        KeyCode::Up | KeyCode::Char('k') => moved(scroll, -1),
        KeyCode::Down | KeyCode::Char('j') => moved(scroll, 1),
        KeyCode::PageUp => moved(scroll, -10),
        KeyCode::PageDown => moved(scroll, 10),
        KeyCode::Home => ScrollStep::To(0),
        KeyCode::End => ScrollStep::To(u16::MAX),
        _ => ScrollStep::To(scroll),
    }
}

fn up(scroll: u16, by: u16) -> (step: ScrollStep)
    ensures
        step == moved(scroll, -by),
{
    ScrollStep::To(
        if scroll < by {
            0
        } else {
            scroll - by
        },
    )
}

fn down(scroll: u16, by: u16) -> (step: ScrollStep)
    ensures
        step == moved(scroll, by as int),
{
    ScrollStep::To(
        if scroll > u16::MAX - by {
            u16::MAX
        } else {
            scroll + by
        },
    )
}

/// Handles a key while a text is shown.
pub fn scroll_key(scroll: u16, key: KeyEvent) -> (step: ScrollStep)
    ensures
        step == scroll_effect(scroll, key),
{
    if key.chord.control && key.chord.code == KeyCode::Char('c') {
        return ScrollStep::Leave;
    }
    match key.chord.code {
        KeyCode::Esc | KeyCode::Char('q') | KeyCode::Char('Q') => ScrollStep::Leave,
        KeyCode::Up | KeyCode::Char('k') => up(scroll, 1),
        KeyCode::Down | KeyCode::Char('j') => down(scroll, 1),
        KeyCode::PageUp => up(scroll, 10),
        KeyCode::PageDown => down(scroll, 10),
        KeyCode::Home => ScrollStep::To(0),
        KeyCode::End => ScrollStep::To(u16::MAX),
        _ => ScrollStep::To(scroll),
    }
}

/// How editing a snippet went.
#[derive(Debug)]
pub enum EditResult {
    /// The snippet of this name was edited.
    Edited(String),
    /// The editor failed, and why.
    Failed(String),
    /// There is no snippet with this id.
    MissingSnippet(SnippetId),
}

/// How reading the snippets again went.
pub enum Reload {
    /// There is nowhere to read them from.
    Skipped,
    /// They were read; `hits` are those that the query finds.
    Loaded { index: SnippetIndex, hits: Vec<SnippetId> },
    /// They could not be read, and why.
    Failed(String),
}

/// What is said after a snippet was edited and the snippets were read again.
pub open spec fn reload_text(name: Seq<char>, reload: Reload, wanted: Option<Seq<char>>) -> Seq<
    char,
> {
    "edited "@ + name + match reload {
        Reload::Skipped => "; reload skipped"@,
        Reload::Loaded { index, hits } => if wanted is Some && index::entry_of(
            index@,
            wanted->0,
        ) is Some {
            "; reloaded"@
        } else {
            "; reloaded, previous snippet not found"@
        },
        Reload::Failed(err) => "; reload failed: "@ + err@,
    }
}

/// The id of the snippet that is chosen.
pub open spec fn chosen_id<P>(session: ExecutionApp<P>, hits: Seq<Seq<char>>) -> Option<Seq<char>> {
    match app::choice(session, hits) {
        Some(entry) => Some(entry.snippet.id),
        None => None,
    }
}

/// Whether a session is left as it is, or takes the snippets that were read.
pub open spec fn takes_reload<P>(
    before: ExecutionApp<P>,
    after: ExecutionApp<P>,
    reload: Reload,
    wanted: Option<Seq<char>>,
) -> bool {
    match reload {
        Reload::Loaded { index, hits } => {
            &&& after.index == index
            &&& browse::node_of(after.tree.root_node(), browse::items_of(index@))
            &&& after.tag_index.groups(index@)
            &&& after@ == app::reindexed(
                before@,
                index@,
                after.tree,
                after.tag_index,
                domain::id_texts(hits@),
                wanted,
            )
            &&& after.cwd == before.cwd
            &&& after.provider == before.provider
            &&& after.theme == before.theme
            &&& after.initial_buffer == before.initial_buffer
            &&& after.keymap == before.keymap
            &&& after.fuzzy_list == before.fuzzy_list
            &&& after.browse_list == before.browse_list
            &&& after.tags_list == before.tags_list
        },
        _ => after == before,
    }
}

/// Takes the snippets that were read again after an edit, and says how it went.
/// `hits` are the snippets that the query found before.
pub fn reload_after_edit<P: SuggestionProvider>(
    session: &mut ExecutionApp<P>,
    hits: &Vec<SnippetId>,
    reload: Reload,
    name: &str,
) -> (status: String)
    requires
        old(session)@.wf(),
    ensures
        status@ == reload_text(
            name@,
            reload,
            chosen_id(*old(session), domain::id_texts(hits@)),
        ),
        takes_reload(
            *old(session),
            *final(session),
            reload,
            chosen_id(*old(session), domain::id_texts(hits@)),
        ),
        final(session)@.wf(),
{
    let previous: Option<SnippetId> = match session.selected_snippet(hits) {
        Some(entry) => Some(entry.snippet.id.clone()),
        None => None,
    };
    let mut status = "edited ".to_owned();
    status.append(name);
    match reload {
        Reload::Skipped => {
            status.append("; reload skipped");
        },
        Reload::Loaded { index, hits: found } => {
            let kept = match &previous {
                Some(id) => session.replace_index(index, Some(id), &found),
                None => session.replace_index(index, None, &found),
            };
            if kept {
                status.append("; reloaded");
            } else {
                status.append("; reloaded, previous snippet not found");
            }
        },
        Reload::Failed(err) => {
            status.append("; reload failed: ");
            status.append(err.as_str());
            assert(status@ =~= reload_text(
                name@,
                reload,
                chosen_id(*old(session), domain::id_texts(hits@)),
            ));
        },
    }
    status
}

/// Says how an edit went, and takes the snippets that were read after it.
pub fn edit_status<P: SuggestionProvider>(
    result: EditResult,
    session: &mut ExecutionApp<P>,
    hits: &Vec<SnippetId>,
    reload: Reload,
) -> (status: String)
    requires
        old(session)@.wf(),
    ensures
        match result {
            EditResult::Edited(name) => {
                &&& status@ == reload_text(
                    name@,
                    reload,
                    chosen_id(*old(session), domain::id_texts(hits@)),
                )
                &&& takes_reload(
                    *old(session),
                    *final(session),
                    reload,
                    chosen_id(*old(session), domain::id_texts(hits@)),
                )
            },
            EditResult::Failed(err) => status@ == "edit failed: "@ + err@ && *final(session)
                == *old(session),
            EditResult::MissingSnippet(id) => status@ == "snippet no longer exists: "@ + id@
                && *final(session) == *old(session),
        },
        final(session)@.wf(),
{
    match result {
        EditResult::Edited(name) => reload_after_edit(session, hits, reload, name.as_str()),
        EditResult::Failed(err) => {
            let mut status = "edit failed: ".to_owned();
            status.append(err.as_str());
            status
        },
        EditResult::MissingSnippet(id) => {
            let mut status = "snippet no longer exists: ".to_owned();
            status.append(id.as_str());
            status
        },
    }
}

/// However a text is scrolled, the position that is shown fills the area: no
/// row stays empty while a line above it is hidden.
pub proof fn law_scrolling_fills_the_area(scroll: int, line_count: int, height: int)
    requires
        0 <= scroll <= furthest(line_count, height),
        2 <= height,
        0 <= line_count,
    ensures
        scroll > 0 ==> scroll + (height - 2) <= line_count,
{
}

/// While a text is shown, the arrow keys and `j` and `k` scroll it by a line, the
/// page keys by ten, Home goes to its start and End to its end, and `q`, Esc and
/// Ctrl with `c` leave it. Other keys leave it where it is.
pub proof fn law_scroll_keys(scroll: u16, key: KeyEvent)
    ensures
        ({
            let code = key.chord.code;
            let step = scroll_effect(scroll, key);
            &&& code is Up || code == KeyCode::Char('k') ==> step == ScrollStep::To(
                (if scroll == 0 {
                    0
                } else {
                    scroll - 1
                }) as u16,
            )
            &&& (code is Down || code == KeyCode::Char('j')) && scroll < u16::MAX ==> step
                == ScrollStep::To((scroll + 1) as u16)
            &&& code is PageUp && scroll >= 10 ==> step == ScrollStep::To((scroll - 10) as u16)
            &&& code is PageUp && scroll < 10 ==> step == ScrollStep::To(0)
            &&& code is PageDown && scroll <= u16::MAX - 10 ==> step == ScrollStep::To(
                (scroll + 10) as u16,
            )
            &&& code is Home ==> step == ScrollStep::To(0)
            &&& code is End ==> step == ScrollStep::To(u16::MAX)
            &&& code is Esc || code == KeyCode::Char('q') || code == KeyCode::Char('Q') ==> step
                == ScrollStep::Leave
            &&& code == KeyCode::Char('c') && key.chord.control ==> step == ScrollStep::Leave
            &&& code == KeyCode::Char('c') && !key.chord.control ==> step == ScrollStep::To(scroll)
            &&& code is Enter || code is Tab || code is Backspace || code is Left || code is Right
                ==> step == ScrollStep::To(scroll)
        }),
{
}

/// The area of a session takes a third of the screen, but six rows at least, as far
/// as the limit allows.
pub proof fn law_session_takes_a_third(rows: int, max_height: int)
    requires
        rows >= 0,
        max_height >= 1,
    ensures
        1 <= third_of(rows, max_height) <= max_height,
        max_height >= 6 ==> third_of(rows, max_height) >= 6,
        rows >= 18 && 3 * max_height >= rows ==> 3 * third_of(rows, max_height) <= rows < 3
            * third_of(rows, max_height) + 3,
        rows < 18 && max_height >= 6 ==> third_of(rows, max_height) == 6,
{
}

} // verus!

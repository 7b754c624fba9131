//! The editor's open tabs: which files are open, which one has the focus,
//! and which hold unsaved edits. Drawing the tab strip, reading and writing
//! the files are the application's part; what each tab action does to the
//! tabs is decided here.
use vstd::prelude::*;
use crate::big::last_char;
use crate::buck::{last_index_of, lemma_last_index_bound};
use crate::paths::{components, same_path};

verus! {

/// An open tab: the file it shows, if it has one, and whether it holds
/// edits that are not saved yet.
#[derive(Debug, Clone)]
pub struct Tab {
    pub path: Option<String>,
    pub dirty: bool,
}

/// A `Tab` with its path as characters.
pub struct TabView {
    pub path: Option<Seq<char>>,
    pub dirty: bool,
}

impl View for Tab {
    type V = TabView;

    open spec fn view(&self) -> TabView {
        TabView {
            path: match self.path {
                Some(p) => Some(p@),
                None => None,
            },
            dirty: self.dirty,
        }
    }
}

/// The tabs, each by its view.
pub open spec fn tab_views(s: Seq<Tab>) -> Seq<TabView> {
    s.map_values(|t: Tab| t@)
}

/// What a tab is called: the last part of its file's path, or the whole
/// path when that part is empty; `untitled` for a tab with no file.
pub open spec fn title_spec(path: Option<Seq<char>>) -> Seq<char> {
    match path {
        None => "untitled"@,
        Some(p) => {
            let name = match last_index_of(p, '/') {
                Some(k) => p.skip(k + 1),
                None => p,
            };
            if name.len() > 0 {
                name
            } else {
                p
            }
        },
    }
}

/// The note shown when a tab is closed: only a tab with unsaved edits
/// gets one, saying that they were discarded.
pub open spec fn close_note_spec(t: TabView) -> Option<Seq<char>> {
    if t.dirty {
        Some("closed "@ + title_spec(t.path) + " (unsaved changes discarded)"@)
    } else {
        None
    }
}

/// Which tab has the focus after tab `i` is closed, leaving `n` tabs: the
/// same tab as before where it is still open (one place further left when
/// it stood right of `i`), the last tab when the focused one was closed at
/// the end, and none when no tab is left.
pub open spec fn close_active(active: Option<usize>, i: int, n: nat) -> Option<usize> {
    match active {
        Some(a) => if n == 0 {
            None
        } else if a > i {
            Some((a - 1) as usize)
        } else if a >= n {
            Some((n - 1) as usize)
        } else {
            Some(a)
        },
        None => None,
    }
}

/// What the user asks of the tabs.
pub enum TabMsg {
    /// Give this tab the focus.
    Select(usize),
    /// Close this tab.
    Close(usize),
    /// Close the focused tab.
    CloseActive,
    /// Open an empty tab.
    New,
    /// A file was read from this path: open it in a new tab.
    Opened(String),
    /// An editor action on the focused tab; `true` when it edits.
    Edited(bool),
    /// The focused tab was saved.
    Saved,
}

/// The tabs and the one with the focus.
pub struct Tabs {
    pub open: Vec<Tab>,
    pub active: Option<usize>,
}

impl Tab {
    /// The title of the tab strip entry.
    pub fn title(&self) -> (r: String)
        ensures
            r@ == title_spec(self@.path),
    {
        match &self.path {
            None => "untitled".to_owned(),
            Some(p) => {
                let s = p.as_str();
                let n = s.unicode_len();
                let name = match last_char(s, '/') {
                    Some(k) => {
                        proof {
                            lemma_last_index_bound(s@, '/');
                        }
                        s.substring_char(k + 1, n)
                    },
                    None => s,
                };
                proof {
                    reveal_strlit("untitled");
                    if let Some(k) = last_index_of(s@, '/') {
                        assert(name@ =~= s@.skip(k + 1));
                    }
                }
                if name.unicode_len() > 0 {
                    name.to_owned()
                } else {
                    s.to_owned()
                }
            },
        }
    }

    /// The note for closing this tab, if it holds unsaved edits.
    pub fn close_note(&self) -> (r: Option<String>)
        ensures
            match r {
                Some(s) => close_note_spec(self@) == Some(s@),
                None => close_note_spec(self@) is None,
            },
    {
        if self.dirty {
            let mut s = "closed ".to_owned();
            let t = self.title();
            s.append(t.as_str());
            s.append(" (unsaved changes discarded)");
            Some(s)
        } else {
            None
        }
    }

    /// This tab, with its unsaved-edits flag set to `dirty`.
    fn with_dirty(&self, dirty: bool) -> (r: Tab)
        ensures
            r@ == (TabView { path: self@.path, dirty }),
    {
        let path = match &self.path {
            Some(p) => Some(p.clone()),
            None => None,
        };
        Tab { path, dirty }
    }
}

impl Tabs {
    /// The focus, when there is one, is on an open tab, and there is one
    /// whenever a tab is open.
    pub open spec fn wf(&self) -> bool {
        &&& (self.active is None) == (self.open.len() == 0)
        &&& self.active matches Some(a) ==> a < self.open.len()
    }

    /// No tabs.
    pub fn new() -> (r: Tabs)
        ensures
            r.wf(),
            r.open@.len() == 0,
            r.active is None,
    {
        Tabs { open: Vec::new(), active: None }
    }

    /// Give tab `i` the focus; nothing happens when there is no such tab.
    pub fn select_tab(&mut self, i: usize)
        ensures
            final(self).open@ == old(self).open@,
            final(self).active == if i < old(self).open.len() {
                Some(i)
            } else {
                old(self).active
            },
            old(self).wf() ==> final(self).wf(),
    {
        if i < self.open.len() {
            self.active = Some(i);
        }
    }

    /// Close tab `i`, whatever it holds, and hand it back; the focus stays
    /// on the tab it was on where that one is still open. Nothing happens
    /// when there is no such tab.
    pub fn close_tab(&mut self, i: usize) -> (closed: Option<Tab>)
        ensures
            i < old(self).open.len() ==> final(self).open@ == old(self).open@.remove(i as int)
                && final(self).active == close_active(old(self).active, i as int, final(self).open@.len())
                && closed == Some(old(self).open@[i as int]),
            i >= old(self).open.len() ==> *final(self) == *old(self) && closed is None,
            old(self).wf() ==> final(self).wf(),
    {
        if i < self.open.len() {
            let t = self.open.remove(i);
            let n = self.open.len();
            self.active = match self.active {
                Some(a) => if n == 0 {
                    None
                } else if a > i {
                    Some(a - 1)
                } else if a >= n {
                    Some(n - 1)
                } else {
                    Some(a)
                },
                None => None,
            };
            Some(t)
        } else {
            None
        }
    }

    /// Close the tab with the focus, if there is one.
    pub fn close_active_tab(&mut self) -> (closed: Option<Tab>)
        ensures
            match old(self).active {
                Some(i) => i < old(self).open.len() ==> final(self).open@ == old(self).open@.remove(i as int)
                    && final(self).active == close_active(old(self).active, i as int, final(self).open@.len())
                    && closed == Some(old(self).open@[i as int]),
                None => *final(self) == *old(self) && closed is None,
            },
            old(self).wf() ==> final(self).wf(),
    {
        match self.active {
            Some(i) => self.close_tab(i),
            None => None,
        }
    }

    /// Open a new, empty tab with no file, and give it the focus.
    pub fn new_tab(&mut self)
        ensures
            tab_views(final(self).open@) == tab_views(old(self).open@).push(TabView { path: None, dirty: false }),
            final(self).active == Some(old(self).open.len()),
            final(self).wf(),
    {
        self.open.push(Tab { path: None, dirty: false });
        self.active = Some(self.open.len() - 1);
        proof {
            assert(tab_views(self.open@) =~= tab_views(old(self).open@).push(TabView { path: None, dirty: false }));
        }
    }

    /// Whether tab `t` shows the file `path`, paths compared by their
    /// components.
    pub open spec fn shows(t: TabView, path: Seq<char>) -> bool {
        t.path matches Some(p) && components(p) == components(path)
    }

    /// The first tab that shows the file `path`.
    pub fn find(&self, path: &str) -> (r: Option<usize>)
        ensures
            match r {
                Some(k) => k < self.open.len() && Self::shows(self.open@[k as int]@, path@) && forall|j: int|
                    0 <= j < k ==> !Self::shows((#[trigger] self.open@[j])@, path@),
                None => forall|j: int| 0 <= j < self.open.len() ==> !Self::shows((#[trigger] self.open@[j])@, path@),
            },
    {
        let mut k: usize = 0;
        while k < self.open.len()
            invariant
                k <= self.open.len(),
                forall|j: int| 0 <= j < k ==> !Self::shows((#[trigger] self.open@[j])@, path@),
            decreases self.open.len() - k,
        {
            match &self.open[k].path {
                Some(p) => {
                    if same_path(p.as_str(), path) {
                        return Some(k);
                    }
                },
                None => {},
            }
            k = k + 1;
        }
        None
    }

    /// A file just read from `path` opens in a new tab with no edits, and
    /// that tab gets the focus. (A file that is open already is focused
    /// with `find` and `select_tab` instead.)
    pub fn push_opened(&mut self, path: String)
        ensures
            tab_views(final(self).open@) == tab_views(old(self).open@).push(TabView { path: Some(path@), dirty: false }),
            final(self).active == Some(old(self).open.len()),
            final(self).wf(),
    {
        let ghost p = path@;
        self.open.push(Tab { path: Some(path), dirty: false });
        self.active = Some(self.open.len() - 1);
        proof {
            assert(tab_views(self.open@) =~= tab_views(old(self).open@).push(TabView { path: Some(p), dirty: false }));
        }
    }

    /// An editor action on the focused tab: an edit marks it as holding
    /// unsaved changes; a move or a scroll does not.
    pub fn mark_edited(&mut self, is_edit: bool)
        ensures
            final(self).active == old(self).active,
            tab_views(final(self).open@) == match old(self).active {
                Some(a) => if is_edit && a < old(self).open.len() {
                    tab_views(old(self).open@).update(a as int, TabView { path: old(self).open@[a as int]@.path, dirty: true })
                } else {
                    tab_views(old(self).open@)
                },
                None => tab_views(old(self).open@),
            },
            final(self).open.len() == old(self).open.len(),
    {
        self.set_active_dirty(is_edit, true);
    }

    /// The focused tab was written to its file: it holds no unsaved edits.
    pub fn mark_saved(&mut self)
        ensures
            final(self).active == old(self).active,
            tab_views(final(self).open@) == match old(self).active {
                Some(a) => if a < old(self).open.len() {
                    tab_views(old(self).open@).update(a as int, TabView { path: old(self).open@[a as int]@.path, dirty: false })
                } else {
                    tab_views(old(self).open@)
                },
                None => tab_views(old(self).open@),
            },
            final(self).open.len() == old(self).open.len(),
    {
        self.set_active_dirty(true, false);
    }

    /// Where `when` holds, set the focused tab's unsaved-edits flag to `dirty`.
    fn set_active_dirty(&mut self, when: bool, dirty: bool)
        ensures
            final(self).active == old(self).active,
            tab_views(final(self).open@) == match old(self).active {
                Some(a) => if when && a < old(self).open.len() {
                    tab_views(old(self).open@).update(a as int, TabView { path: old(self).open@[a as int]@.path, dirty })
                } else {
                    tab_views(old(self).open@)
                },
                None => tab_views(old(self).open@),
            },
            final(self).open.len() == old(self).open.len(),
    {
        match self.active {
            Some(a) => {
                if when && a < self.open.len() {
                    let t = self.open[a].with_dirty(dirty);
                    self.open.set(a, t);
                    proof {
                        assert(tab_views(self.open@) =~= tab_views(old(self).open@).update(
                            a as int,
                            TabView { path: old(self).open@[a as int]@.path, dirty },
                        ));
                    }
                }
            },
            None => {},
        }
    }
}

impl Tabs {
    /// Whatever the message, the focus stays on an open tab, and there is
    /// one whenever a tab is open; closing a tab removes just that tab and
    /// keeps the focus on the tab it was on where that one is still open.
    pub fn handle(&mut self, msg: TabMsg) -> (closed: Option<Tab>)
        ensures
            old(self).wf() ==> final(self).wf(),
            match msg {
                TabMsg::Close(i) => i < old(self).open.len() ==> final(self).open@ == old(self).open@.remove(
                    i as int,
                ) && final(self).active == close_active(old(self).active, i as int, final(self).open@.len())
                    && closed == Some(old(self).open@[i as int]),
                TabMsg::Select(i) => final(self).open@ == old(self).open@ && final(self).active == if i
                    < old(self).open.len() {
                    Some(i)
                } else {
                    old(self).active
                },
                TabMsg::New => final(self).active == Some(old(self).open.len()) && tab_views(final(self).open@)
                    == tab_views(old(self).open@).push(TabView { path: None, dirty: false }),
                _ => true,
            },
    {
        match msg {
            TabMsg::Select(i) => {
                self.select_tab(i);
                None
            },
            TabMsg::Close(i) => self.close_tab(i),
            TabMsg::CloseActive => self.close_active_tab(),
            TabMsg::New => {
                self.new_tab();
                None
            },
            TabMsg::Opened(p) => {
                self.push_opened(p);
                None
            },
            TabMsg::Edited(e) => {
                self.mark_edited(e);
                proof {
                    assert(old(self).wf() ==> self.wf());
                }
                None
            },
            TabMsg::Saved => {
                self.mark_saved();
                None
            },
        }
    }
}

/// Closing a tab other than the focused one leaves the focus on the same
/// tab.
pub proof fn law_close_keeps_focus(open: Seq<Tab>, a: usize, i: int)
    requires
        0 <= i < open.len(),
        a < open.len(),
        a != i,
    ensures
        close_active(Some(a), i, open.remove(i).len()) matches Some(b) && open.remove(i)[b as int] == open[a as int],
{
}

/// Whatever tab is closed, the focus stays on an open tab, and is lost only
/// when no tab is left.
pub proof fn law_close_keeps_focus_valid(active: Option<usize>, i: int, n: nat)
    requires
        0 <= i <= n,
        active matches Some(a) ==> a <= n,
    ensures
        close_active(active, i, n) matches Some(b) ==> b < n,
        close_active(active, i, n) is None <==> (n == 0 || active is None),
{
}

} // verus!

//! The state of the window from which a scan is started: the folders picked
//! so far and the page shown.

use crate::roots::texts;
use vstd::prelude::*;

verus! {

/// The pages of the window.
#[derive(Debug, Clone, Copy, PartialEq, Eq, Structural)]
pub enum Page {
    /// Folders are picked and the scan is started.
    PreOp,
    /// The scan has completed; its log can be opened.
    PostOp,
}

/// The mathematical value of a [`Session`].
pub struct SessionView {
    pub selected_folders: Seq<Seq<char>>,
    pub page: Page,
}

/// The folders picked and the page shown.
pub struct Session {
    selected_folders: Vec<String>,
    page: Page,
}

impl View for Session {
    type V = SessionView;

    closed spec fn view(&self) -> SessionView {
        SessionView { selected_folders: texts(self.selected_folders@), page: self.page }
    }
}

/// Whether the scanner process has completed its scan: it has, if it ended
/// with the exit code zero. A process that was killed has no exit code.
pub open spec fn scan_succeeded(code: Option<i32>) -> bool {
    code == Some(0i32)
}

/// `folders` without every occurrence of `folder`.
pub open spec fn without(folders: Seq<Seq<char>>, folder: Seq<char>) -> Seq<Seq<char>> {
    folders.filter(|f: Seq<char>| f != folder)
}

impl Session {
    /// The window as it opens: nothing picked, on the first page.
    pub fn new() -> (session: Session)
        ensures
            session@.selected_folders == Seq::<Seq<char>>::empty(),
            session@.page == Page::PreOp,
    {
        let session = Session { selected_folders: Vec::new(), page: Page::PreOp };
        assert(session@.selected_folders =~= Seq::<Seq<char>>::empty());
        session
    }

    /// A window in which `selected_folders` are picked and `page` is shown.
    pub fn restore(selected_folders: Vec<String>, page: Page) -> (session: Session)
        ensures
            session@.selected_folders == texts(selected_folders@),
            session@.page == page,
    {
        Session { selected_folders, page }
    }

    /// The page shown.
    pub fn page(&self) -> (page: Page)
        ensures
            page == self@.page,
    {
        self.page
    }

    /// The folders picked so far, in the order in which they were picked.
    pub fn selected_folders(&self) -> (folders: &Vec<String>)
        ensures
            texts(folders@) == self@.selected_folders,
    {
        &self.selected_folders
    }

    /// Adds the folders that the user has picked in the dialog to those
    /// picked before.
    pub fn add_folders(&mut self, picked: Vec<String>)
        ensures
            final(self)@.selected_folders == old(self)@.selected_folders + texts(picked@),
            final(self)@.page == old(self)@.page,
    {
        let ghost start = texts(self.selected_folders@);
        let ghost added = texts(picked@);
        let mut picked = picked;
        self.selected_folders.append(&mut picked);
        assert(texts(self.selected_folders@) =~= start + added);
    }

    /// Takes the folder that the user has clicked from the folders picked,
    /// as often as it occurs among them.
    pub fn remove_folder(&mut self, folder: &str)
        ensures
            final(self)@.selected_folders == without(old(self)@.selected_folders, folder@),
            final(self)@.page == old(self)@.page,
    {
        let ghost start = texts(self.selected_folders@);
        let ghost keep = |f: Seq<char>| f != folder@;
        let target = folder.to_owned();
        let mut kept: Vec<String> = Vec::new();
        let mut i: usize = 0;
        assert(start.take(0).filter(keep) =~= Seq::empty()) by {
            broadcast use vstd::seq_lib::group_filter_ensures;

        }
        assert(texts(kept@) =~= Seq::empty());
        while i < self.selected_folders.len()
            invariant
                i <= self.selected_folders@.len(),
                start == texts(self.selected_folders@),
                keep == |f: Seq<char>| f != folder@,
                target@ == folder@,
                texts(kept@) == start.take(i as int).filter(keep),
                self.page == old(self).page,
            decreases self.selected_folders@.len() - i,
        {
            proof {
                assert(start.take(i + 1) =~= start.take(i as int).push(start[i as int]));
                start.take(i as int).lemma_filter_push(start[i as int], keep);
            }
            if self.selected_folders[i] != target {
                let ghost before = kept@;
                kept.push(self.selected_folders[i].clone());
                assert(texts(kept@) =~= texts(before).push(start[i as int]));
            }
            i = i + 1;
        }
        assert(start.take(i as int) =~= start);
        self.selected_folders = kept;
    }

    /// Takes note of how the scanner process ended. After a completed scan
    /// the second page is shown; otherwise the page stays, and the result
    /// says that an error is to be reported.
    pub fn scan_finished(&mut self, code: Option<i32>) -> (completed: bool)
        ensures
            completed == scan_succeeded(code),
            final(self)@.selected_folders == old(self)@.selected_folders,
            final(self)@.page == if completed {
                Page::PostOp
            } else {
                old(self)@.page
            },
    {
        let completed = match code {
            Some(value) => value == 0,
            None => false,
        };
        if completed {
            self.page = Page::PostOp;
        }
        completed
    }

    /// Goes back to the first page.
    pub fn go_back(&mut self)
        ensures
            final(self)@.selected_folders == old(self)@.selected_folders,
            final(self)@.page == Page::PreOp,
    {
        self.page = Page::PreOp;
    }
}

} // verus!

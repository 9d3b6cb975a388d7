//! The projects a server has opened, one per repository root.
//!
//! Each repository keeps its own fact store: source paths, symbol ids,
//! freshness generations and cursors mean something only within one
//! repository, so the registry never merges projects. A tool call selects
//! its repository, or falls back to the default root the server was started
//! with.
use vstd::prelude::*;

use crate::error::CodeFactsError;
use crate::lsp::LspMode;
use crate::text::str_eq;

verus! {

/// Projects by canonical repository root.
pub struct CodeFactsRegistry<P> {
    projects: Vec<(String, P)>,
    default_root: Option<String>,
    lsp_mode: LspMode,
}

/// The projects of the first `k` entries, by root.
pub open spec fn projects_map<P>(entries: Seq<(String, P)>, k: int) -> Map<Seq<char>, P>
    decreases k,
{
    if k <= 0 || k > entries.len() {
        Map::empty()
    } else {
        projects_map(entries, k - 1).insert(entries[k - 1].0@, entries[k - 1].1)
    }
}

/// The message of a tool call that names no repository on a rootless server.
pub open spec fn root_required_message() -> Seq<char> {
    "'repository_root' is required when CodeFacts was started without --root"@
}

/// The message of a default state file without a default root.
pub open spec fn state_without_root_message() -> Seq<char> {
    "--state requires --root; dynamic project roots each use their own external default state path"@
}

impl<P> CodeFactsRegistry<P> {
    /// The opened projects by root.
    pub closed spec fn projects(&self) -> Map<Seq<char>, P> {
        projects_map(self.projects@, self.projects@.len() as int)
    }

    /// The default root, if the server was started with one.
    pub closed spec fn default_root_spec(&self) -> Option<Seq<char>> {
        match self.default_root {
            Some(r) => Some(r@),
            None => None,
        }
    }

    pub closed spec fn lsp_mode_spec(&self) -> LspMode {
        self.lsp_mode
    }

    /// Each root is held once, and the default root is an opened project.
    pub closed spec fn wf(&self) -> bool {
        &&& forall|i: int, j: int|
            0 <= i < j < self.projects@.len() ==> (#[trigger] self.projects@[i]).0@ != (#[trigger] self.projects@[j]).0@
        &&& match self.default_root {
            Some(r) => self.projects().dom().contains(r@),
            None => true,
        }
    }

    /// A registry without projects or default root.
    pub fn new(lsp_mode: LspMode) -> (r: Self)
        ensures
            r.wf(),
            r.projects() == Map::<Seq<char>, P>::empty(),
            r.default_root_spec() is None,
            r.lsp_mode_spec() == lsp_mode,
    {
        CodeFactsRegistry { projects: Vec::new(), default_root: None, lsp_mode }
    }

    /// A registry whose default project is already open.
    pub fn with_default(root: String, project: P, lsp_mode: LspMode) -> (r: Self)
        ensures
            r.wf(),
            r.projects() == Map::<Seq<char>, P>::empty().insert(root@, project),
            r.default_root_spec() == Some(root@),
            r.lsp_mode_spec() == lsp_mode,
    {
        let ghost key = root@;
        let ghost p = project;
        let default_root = root.clone();
        let mut projects: Vec<(String, P)> = Vec::new();
        projects.push((root, project));
        assert(projects@.len() == 1 && projects@[0].0@ == key && projects@[0].1 == p);
        assert(projects_map(projects@, 0) =~= Map::<Seq<char>, P>::empty());
        assert(projects_map(projects@, 1) =~= Map::<Seq<char>, P>::empty().insert(key, p));
        let r = CodeFactsRegistry { projects, default_root: Some(default_root), lsp_mode };
        assert(r.projects() =~= Map::<Seq<char>, P>::empty().insert(key, p));
        r
    }

    /// The registry a server starts with: a default state file without a
    /// default root is refused; otherwise the registry holds the default
    /// project, already opened, when the server has one.
    pub fn open_with_lsp(default: Option<(String, P)>, has_state: bool, lsp_mode: LspMode) -> (r: Result<
        Self,
        CodeFactsError,
    >)
        ensures
            r is Err <==> (default is None && has_state),
            r matches Err(CodeFactsError::Other(m)) ==> m@ == state_without_root_message(),
            r is Err ==> r matches Err(CodeFactsError::Other(_)),
            r matches Ok(reg) ==> {
                &&& reg.wf()
                &&& reg.lsp_mode_spec() == lsp_mode
                &&& match default {
                    Some((root, project)) => {
                        &&& reg.projects() == Map::<Seq<char>, P>::empty().insert(root@, project)
                        &&& reg.default_root_spec() == Some(root@)
                    },
                    None => {
                        &&& reg.projects() == Map::<Seq<char>, P>::empty()
                        &&& reg.default_root_spec() is None
                    },
                }
            },
    {
        match check_default_state(default.is_some(), has_state) {
            Err(e) => Err(e),
            Ok(()) => match default {
                Some((root, project)) => Ok(Self::with_default(root, project, lsp_mode)),
                None => Ok(Self::new(lsp_mode)),
            },
        }
    }

    /// The LSP mode of every project the registry opens.
    pub fn lsp_mode(&self) -> (r: LspMode)
        ensures
            r == self.lsp_mode_spec(),
    {
        self.lsp_mode
    }

    /// The root a tool call selects: the canonical root it names, else the
    /// default root; a rootless server requires the call to name one.
    pub fn selected_root(&self, repository_root: Option<String>) -> (r: Result<String, CodeFactsError>)
        ensures
            match repository_root {
                Some(root) => r == Ok::<String, CodeFactsError>(root),
                None => match self.default_root_spec() {
                    Some(d) => r matches Ok(s) && s@ == d,
                    None => r matches Err(CodeFactsError::Mcp(m)) && m@ == root_required_message(),
                },
            },
    {
        match repository_root {
            Some(root) => Ok(root),
            None => match &self.default_root {
                Some(d) => Ok(d.clone()),
                None => Err(
                    CodeFactsError::Mcp(
                        "'repository_root' is required when CodeFacts was started without --root".to_owned(),
                    ),
                ),
            },
        }
    }

    /// Position of the entry for `root`, if it was opened.
    fn position(&self, root: &str) -> (r: Option<usize>)
        requires
            self.wf(),
        ensures
            match r {
                Some(i) => i < self.projects@.len() && self.projects@[i as int].0@ == root@
                    && self.projects().dom().contains(root@) && self.projects()[root@] == self.projects@[i as int].1,
                None => !self.projects().dom().contains(root@),
            },
    {
        let mut i: usize = 0;
        while i < self.projects.len()
            invariant
                i <= self.projects@.len(),
                self.wf(),
                forall|j: int| 0 <= j < i ==> (#[trigger] self.projects@[j]).0@ != root@,
            decreases self.projects@.len() - i,
        {
            if str_eq(self.projects[i].0.as_str(), root) {
                proof {
                    lemma_unique_entry(self.projects@, self.projects@.len() as int, i as int);
                }
                return Some(i);
            }
            i = i + 1;
        }
        proof {
            lemma_absent(self.projects@, self.projects@.len() as int, root@);
        }
        None
    }

    /// Whether the project of `root` is open.
    pub fn contains(&self, root: &str) -> (r: bool)
        requires
            self.wf(),
        ensures
            r == self.projects().dom().contains(root@),
    {
        self.position(root).is_some()
    }

    /// The open project of `root`.
    pub fn opened(&self, root: &str) -> (r: Option<&P>)
        requires
            self.wf(),
        ensures
            match r {
                Some(p) => self.projects().dom().contains(root@) && self.projects()[root@] == *p,
                None => !self.projects().dom().contains(root@),
            },
    {
        match self.position(root) {
            Some(i) => Some(&self.projects[i].1),
            None => None,
        }
    }

    /// The project a tool call selects: the one of the canonical root it
    /// names, else of the default root. A rootless server refuses a call that
    /// names no root; `None` when the selected root has no project open yet,
    /// which the caller then opens and records.
    pub fn project(&self, repository_root: Option<String>) -> (r: Result<Option<&P>, CodeFactsError>)
        requires
            self.wf(),
        ensures
            ({
                let selected = match repository_root {
                    Some(root) => Some(root@),
                    None => self.default_root_spec(),
                };
                match selected {
                    None => r matches Err(CodeFactsError::Mcp(m)) && m@ == root_required_message(),
                    Some(root) => match r {
                        Ok(Some(p)) => self.projects().dom().contains(root) && self.projects()[root] == *p,
                        Ok(None) => !self.projects().dom().contains(root),
                        Err(_) => false,
                    },
                }
            }),
    {
        let root = self.selected_root(repository_root)?;
        Ok(self.opened(root.as_str()))
    }

    /// Records the project opened for a new root.
    pub fn insert(&mut self, root: String, project: P)
        requires
            old(self).wf(),
            !old(self).projects().dom().contains(root@),
        ensures
            final(self).wf(),
            final(self).projects() == old(self).projects().insert(root@, project),
            final(self).default_root_spec() == old(self).default_root_spec(),
            final(self).lsp_mode_spec() == old(self).lsp_mode_spec(),
    {
        let ghost before = self.projects@;
        let ghost key = root@;
        proof {
            lemma_absent_entries(before, before.len() as int, key);
        }
        self.projects.push((root, project));
        proof {
            assert(self.projects@.drop_last() =~= before);
            lemma_map_prefix(self.projects@, before.len() as int);
            assert(forall|i: int| 0 <= i < before.len() ==> self.projects@[i] == before[i]);
            if self.default_root_spec() is Some {
                assert(old(self).projects().dom().contains(self.default_root_spec()->Some_0));
            }
        }
    }
}

/// Refuses a default state file without a default root: every other root
/// keeps its own state file.
pub fn check_default_state(has_root: bool, has_state: bool) -> (r: Result<(), CodeFactsError>)
    ensures
        r is Err <==> (!has_root && has_state),
        r matches Err(CodeFactsError::Other(m)) ==> m@ == state_without_root_message(),
        r is Err ==> r matches Err(CodeFactsError::Other(_)),
{
    if !has_root && has_state {
        Err(
            CodeFactsError::Other(
                "--state requires --root; dynamic project roots each use their own external default state path".to_owned(),
            ),
        )
    } else {
        Ok(())
    }
}

proof fn lemma_unique_entry<P>(entries: Seq<(String, P)>, k: int, i: int)
    requires
        0 <= i < k <= entries.len(),
        forall|a: int, b: int| 0 <= a < b < entries.len() ==> (#[trigger] entries[a]).0@ != (#[trigger] entries[b]).0@,
    ensures
        projects_map(entries, k).dom().contains(entries[i].0@),
        projects_map(entries, k)[entries[i].0@] == entries[i].1,
    decreases k,
{
    if k - 1 > i {
        lemma_unique_entry(entries, k - 1, i);
        assert(entries[k - 1].0@ != entries[i].0@);
    }
}

proof fn lemma_absent<P>(entries: Seq<(String, P)>, k: int, key: Seq<char>)
    requires
        0 <= k <= entries.len(),
        forall|j: int| 0 <= j < k ==> (#[trigger] entries[j]).0@ != key,
    ensures
        !projects_map(entries, k).dom().contains(key),
    decreases k,
{
    if k > 0 {
        lemma_absent(entries, k - 1, key);
    }
}

proof fn lemma_absent_entries<P>(entries: Seq<(String, P)>, k: int, key: Seq<char>)
    requires
        0 <= k <= entries.len(),
        !projects_map(entries, k).dom().contains(key),
    ensures
        forall|j: int| 0 <= j < k ==> (#[trigger] entries[j]).0@ != key,
    decreases k,
{
    if k > 0 {
        lemma_absent_entries(entries, k - 1, key);
    }
}

proof fn lemma_map_prefix<P>(entries: Seq<(String, P)>, k: int)
    requires
        0 <= k < entries.len(),
    ensures
        projects_map(entries, k) == projects_map(entries.take(k), k),
    decreases k,
{
    if k > 0 {
        lemma_map_prefix(entries, k - 1);
        lemma_map_prefix(entries.take(k), k - 1);
        assert(entries.take(k).take(k - 1) =~= entries.take(k - 1));
    }
}

} // verus!

//! The traversal engine: which file to visit next, what to do with its
//! content, and which imported files to visit after it.
//!
//! The caller runs the loop: it asks for the next file, reads it, writes what
//! the engine hands back, probes the import candidates, and hands the ones
//! that exist back to the engine.
use vstd::prelude::*;
use crate::backup::{BackupArtifact, backup_path_of, backup_text, create_backup};
use crate::filter::{count_lines, debug_lines, filtered, lemma_filter_counts, remove_debug_statements};
use crate::discovery::{excluded_by, is_excluded};
use crate::imports::{candidates, import_candidates, views};
use crate::paths::{extension, extension_of, parent, parent_of};
use crate::rules::{LanguageRule, rule_of};

verus! {

/// How a run treats the files it visits.
#[derive(Clone, Copy, Debug)]
pub struct Options {
    /// Compute and report, but write nothing.
    pub dry_run: bool,
    /// Report each file.
    pub verbose: bool,
    /// Visit the files that a visited file imports.
    pub follow_imports: bool,
}

/// The next file of a run.
pub enum Visit {
    /// A file to read; its extension chooses the language rule.
    Read { path: String, extension: String },
    /// A file without an extension: skipped.
    NoExtension { path: String },
}

/// What the run does with the content of a file.
pub struct FileWork {
    /// The content without its debug statements.
    pub cleaned: String,
    /// How many lines were removed.
    pub removed: usize,
    /// On a real run, the backup to write before the cleaned content.
    pub backup: Option<BackupArtifact>,
    /// The import candidates to probe once the file is written (or, on a dry
    /// run, at once); empty where imports are not followed.
    pub imports: Vec<String>,
}

/// The paths a run has visited, each once.
pub struct VisitedSet {
    paths: Vec<String>,
}

impl View for VisitedSet {
    type V = Seq<Seq<char>>;

    closed spec fn view(&self) -> Seq<Seq<char>> {
        views(self.paths@)
    }
}

impl VisitedSet {
    #[verifier::type_invariant]
    spec fn inv(self) -> bool {
        views(self.paths@).no_duplicates()
    }

    pub fn new() -> (r: VisitedSet)
        ensures
            r@ == Seq::<Seq<char>>::empty(),
    {
        let r = VisitedSet { paths: Vec::new() };
        assert(r@ =~= Seq::<Seq<char>>::empty());
        r
    }

    pub fn contains(&self, path: &String) -> (r: bool)
        ensures
            r == self@.contains(path@),
            self@.no_duplicates(),
    {
        proof {
            use_type_invariant(self);
        }
        let mut i: usize = 0;
        while i < self.paths.len()
            invariant
                i <= self.paths.len(),
                self@.no_duplicates(),
                forall|j: int| 0 <= j < i ==> self.paths@[j]@ != path@,
            decreases self.paths.len() - i,
        {
            if self.paths[i] == *path {
                assert(self@[i as int] == path@);
                return true;
            }
            i += 1;
        }
        assert(!self@.contains(path@)) by {
            if self@.contains(path@) {
                let j = choose|j: int| 0 <= j < self@.len() && self@[j] == path@;
                assert(self.paths@[j]@ == path@);
            }
        }
        false
    }

    /// Marks `path` visited; false where it already was.
    pub fn insert(&mut self, path: String) -> (r: bool)
        ensures
            r == !old(self)@.contains(path@),
            final(self)@ == if r {
                old(self)@.push(path@)
            } else {
                old(self)@
            },
            final(self)@.no_duplicates(),
    {
        if self.contains(&path) {
            return false;
        }
        let mut paths = Vec::new();
        std::mem::swap(&mut paths, &mut self.paths);
        let ghost before = views(paths@);
        paths.push(path);
        assert(views(paths@) =~= before.push(path@));
        self.paths = paths;
        true
    }
}

/// The state of one run.
pub struct Traversal {
    visited: VisitedSet,
    pending: Vec<String>,
    exclusions: Vec<String>,
    files_processed: usize,
    statements_removed: usize,
    options: Options,
}

pub open spec fn saturated(a: int) -> int {
    if a > usize::MAX {
        usize::MAX as int
    } else {
        a
    }
}

impl Traversal {
    /// The paths visited so far, in order.
    pub closed spec fn visited_paths(&self) -> Seq<Seq<char>> {
        self.visited@
    }

    /// The paths waiting to be visited; the last one comes next.
    pub closed spec fn pending_paths(&self) -> Seq<Seq<char>> {
        views(self.pending@)
    }

    pub closed spec fn files(&self) -> usize {
        self.files_processed
    }

    pub closed spec fn removed(&self) -> usize {
        self.statements_removed
    }

    pub closed spec fn opts(&self) -> Options {
        self.options
    }

    /// The path prefixes under which no file is visited.
    pub closed spec fn excluded(&self) -> Seq<Seq<char>> {
        views(self.exclusions@)
    }

    /// A run with the given options that visits nothing under `exclusions`.
    pub fn new(options: Options, exclusions: Vec<String>) -> (r: Traversal)
        ensures
            r.excluded() == views(exclusions@),
            r.visited_paths() == Seq::<Seq<char>>::empty(),
            r.pending_paths() == Seq::<Seq<char>>::empty(),
            r.files() == 0,
            r.removed() == 0,
            r.opts() == options,
    {
        let r = Traversal {
            visited: VisitedSet::new(),
            pending: Vec::new(),
            exclusions,
            files_processed: 0,
            statements_removed: 0,
            options,
        };
        assert(r.pending_paths() =~= Seq::<Seq<char>>::empty());
        r
    }

    /// Adds a path given to the run; it is visited after the files now
    /// pending that came from it.
    pub fn add_root(&mut self, path: String)
        ensures
            final(self).pending_paths() == old(self).pending_paths().push(path@),
            final(self).visited_paths() == old(self).visited_paths(),
            final(self).files() == old(self).files(),
            final(self).removed() == old(self).removed(),
            final(self).opts() == old(self).opts(),
            final(self).excluded() == old(self).excluded(),
    {
        self.pending.push(path);
        assert(self.pending_paths() =~= old(self).pending_paths().push(path@));
    }

    /// The next file to visit: the last pending path that is neither visited
    /// yet nor excluded, now marked visited. Pending paths that were visited
    /// or are excluded are dropped on the way. A path is never handed out
    /// twice.
    pub fn next_file(&mut self) -> (r: Option<Visit>)
        ensures
            final(self).visited_paths().no_duplicates(),
            final(self).files() == old(self).files(),
            final(self).removed() == old(self).removed(),
            final(self).opts() == old(self).opts(),
            final(self).excluded() == old(self).excluded(),
            final(self).pending_paths().len() <= old(self).pending_paths().len(),
            final(self).pending_paths() == old(self).pending_paths().take(
                final(self).pending_paths().len() as int,
            ),
            match r {
                None => {
                    &&& final(self).pending_paths().len() == 0
                    &&& final(self).visited_paths() == old(self).visited_paths()
                    &&& forall|i: int|
                        0 <= i < old(self).pending_paths().len() ==> old(
                            self,
                        ).visited_paths().contains(#[trigger] old(self).pending_paths()[i])
                            || excluded_by(old(self).pending_paths()[i], old(self).excluded())
                },
                Some(v) => {
                    let p = match v {
                        Visit::Read { path, .. } => path@,
                        Visit::NoExtension { path } => path@,
                    };
                    let k = final(self).pending_paths().len() as int;
                    &&& !old(self).visited_paths().contains(p)
                    &&& !excluded_by(p, old(self).excluded())
                    &&& final(self).visited_paths() == old(self).visited_paths().push(p)
                    &&& k < old(self).pending_paths().len()
                    &&& old(self).pending_paths()[k] == p
                    &&& forall|i: int|
                        k < i < old(self).pending_paths().len() ==> old(
                            self,
                        ).visited_paths().contains(#[trigger] old(self).pending_paths()[i])
                            || excluded_by(old(self).pending_paths()[i], old(self).excluded())
                    &&& match v {
                        Visit::Read { extension, .. } => extension_of(p) == Some(extension@),
                        Visit::NoExtension { .. } => extension_of(p) is None,
                    }
                },
            },
    {
        loop
            invariant_except_break
                self.visited@ == old(self).visited@,
                self.exclusions@ == old(self).exclusions@,
                self.files_processed == old(self).files_processed,
                self.statements_removed == old(self).statements_removed,
                self.options == old(self).options,
                self.pending@.len() <= old(self).pending@.len(),
                views(self.pending@) == old(self).pending_paths().take(self.pending@.len() as int),
                forall|i: int|
                    self.pending@.len() <= i < old(self).pending_paths().len() ==> old(
                        self,
                    ).visited_paths().contains(#[trigger] old(self).pending_paths()[i])
                        || excluded_by(old(self).pending_paths()[i], old(self).excluded()),
            ensures
                final(self).visited_paths().no_duplicates(),
                final(self).files() == old(self).files(),
                final(self).removed() == old(self).removed(),
                final(self).opts() == old(self).opts(),
                final(self).excluded() == old(self).excluded(),
                final(self).pending_paths().len() <= old(self).pending_paths().len(),
                final(self).pending_paths() == old(self).pending_paths().take(
                    final(self).pending_paths().len() as int,
                ),
            decreases self.pending@.len(),
        {
            let ghost before = self.pending@;
            let next = self.pending.pop();
            let path = match next {
                None => {
                    assert(views(self.pending@) =~= Seq::<Seq<char>>::empty());
                    proof {
                        use_type_invariant(&self.visited);
                    }
                    return None;
                },
                Some(p) => p,
            };
            assert(views(self.pending@) =~= views(before).drop_last());
            assert(views(before).last() == path@);
            if is_excluded(path.as_str(), &self.exclusions) {
                continue;
            }
            let kept = path.clone();
            if self.visited.insert(kept) {
                let ext = extension(path.as_str());
                let k = self.pending.len();
                assert(old(self).pending_paths()[k as int] == path@);
                return Some(
                    match ext {
                        Some(e) => Visit::Read { path, extension: e },
                        None => Visit::NoExtension { path },
                    },
                );
            }
        }
    }

    /// Filters the content of `path`, read with the rule of `extension`, and
    /// counts the file and its removed lines into the run's totals. On a
    /// real run the backup of the original content comes with it; where
    /// imports are followed, the files that the original content imports,
    /// read from the file's directory.
    pub fn read(&mut self, path: &str, extension: &str, content: &str) -> (r: FileWork)
        ensures
            r.cleaned@ == filtered(rule_of(extension@), content@),
            r.removed == debug_lines(rule_of(extension@), content@).len(),
            final(self).files() == saturated(old(self).files() + 1),
            final(self).removed() == saturated(old(self).removed() + r.removed),
            final(self).visited_paths() == old(self).visited_paths(),
            final(self).pending_paths() == old(self).pending_paths(),
            final(self).opts() == old(self).opts(),
            final(self).excluded() == old(self).excluded(),
            old(self).opts().dry_run ==> r.backup is None,
            !old(self).opts().dry_run ==> (r.backup matches Some(b) && b.path@ == backup_path_of(
                path@,
            ) && b.text@ == backup_text(path@, b.id@, b.timestamp@, content@)),
            if old(self).opts().follow_imports && rule_of(extension@)
                != LanguageRule::PassThrough {
                views(r.imports@) == candidates(
                    rule_of(extension@),
                    parent_of(path@),
                    extension@,
                    content@,
                )
            } else {
                r.imports@.len() == 0
            },
    {
        let cleaned = remove_debug_statements(content, extension);
        let before = count_lines(content);
        let after = count_lines(cleaned.as_str());
        proof {
            lemma_filter_counts(rule_of(extension@), content@);
        }
        let removed = before - after;
        self.files_processed = self.files_processed.saturating_add(1);
        self.statements_removed = self.statements_removed.saturating_add(removed);
        let backup = if self.options.dry_run {
            None
        } else {
            Some(create_backup(content, path))
        };
        let mut imports: Vec<String> = Vec::new();
        if self.options.follow_imports {
            let base = parent(path);
            match import_candidates(content, base.as_str(), extension) {
                Some(found) => {
                    imports = found;
                },
                None => {},
            }
        }
        FileWork { cleaned, removed, backup, imports }
    }

    /// Queues the imported files that exist, so that they are visited next,
    /// depth first, in the order given.
    pub fn follow(&mut self, found: Vec<String>)
        ensures
            final(self).pending_paths() == old(self).pending_paths() + views(found@).reverse(),
            final(self).visited_paths() == old(self).visited_paths(),
            final(self).files() == old(self).files(),
            final(self).removed() == old(self).removed(),
            final(self).opts() == old(self).opts(),
            final(self).excluded() == old(self).excluded(),
    {
        let mut k = found.len();
        while k > 0
            invariant
                k <= found.len(),
                self.visited@ == old(self).visited@,
                self.files_processed == old(self).files_processed,
                self.statements_removed == old(self).statements_removed,
                self.options == old(self).options,
                self.exclusions@ == old(self).exclusions@,
                views(self.pending@) == old(self).pending_paths() + views(found@).skip(
                    k as int,
                ).reverse(),
            decreases k,
        {
            k -= 1;
            let p = found[k].clone();
            let ghost queued = views(self.pending@);
            self.pending.push(p);
            assert(views(self.pending@) =~= queued.push(found@[k as int]@));
            assert(views(found@).skip(k as int).reverse() =~= views(found@).skip(k + 1).reverse().push(
                found@[k as int]@,
            ));
            assert(views(self.pending@) =~= old(self).pending_paths() + views(found@).skip(
                k as int,
            ).reverse());
        }
        assert(views(found@).skip(0) =~= views(found@));
    }

    pub fn files_processed(&self) -> (r: usize)
        ensures
            r == self.files(),
    {
        self.files_processed
    }

    pub fn statements_removed(&self) -> (r: usize)
        ensures
            r == self.removed(),
    {
        self.statements_removed
    }

    pub fn options(&self) -> (r: Options)
        ensures
            r == self.opts(),
    {
        self.options
    }
}

} // verus!

//! The rule for installed project dependencies: `node_modules` and virtual
//! environments in the home directory and below the project roots.
use vstd::prelude::*;
use crate::model::{Category, Risk};
use crate::paths::{join, joined, parent_of, parent_text};
use crate::plugins::{RawCandidate, RawCandidateView};
use crate::scanner::{name_list, names_contain};
use crate::paths::views;
use crate::text::{chars_of, string_of};

verus! {

/// Directory names that hold installed dependencies.
pub open spec fn dependency_names() -> Seq<Seq<char>> {
    seq!["node_modules"@, ".venv"@, "venv"@]
}

/// Directory names that a walk below a project root never enters.
pub open spec fn walk_skips() -> Seq<Seq<char>> {
    seq![".git"@, ".hg"@, ".svn"@, "Library"@, ".Trash"@, "CloudStorage"@]
}

/// How deep below a project root the walk reads directories.
pub open spec fn max_depth() -> nat {
    8
}

/// Whether the walk reads a directory it reached at `depth`: the scan was not
/// cancelled and the directory lies less than `max_depth` levels below the root.
pub open spec fn read_at(depth: nat, cancelled: bool) -> bool {
    !cancelled && depth < max_depth()
}

/// The dependency directory names, as characters.
fn dependency_list() -> (res: Vec<Vec<char>>)
    ensures
        views(res@) == dependency_names(),
{
    let names = ["node_modules", ".venv", "venv"];
    let res = name_list(&names);
    assert(views(res@) =~= dependency_names());
    res
}

/// The skipped directory names, as characters.
fn skip_list() -> (res: Vec<Vec<char>>)
    ensures
        views(res@) == walk_skips(),
{
    let names = [".git", ".hg", ".svn", "Library", ".Trash", "CloudStorage"];
    let res = name_list(&names);
    assert(views(res@) =~= walk_skips());
    res
}

/// The paths in the home directory where dependencies would sit, one per name.
pub fn home_dependency_paths(home: &str) -> (res: Vec<String>)
    ensures
        res@.map_values(|p: String| p@) == dependency_names().map_values(|n: Seq<char>| joined(home@, n)),
{
    let mut res: Vec<String> = Vec::new();
    res.push(join(home, "node_modules"));
    res.push(join(home, ".venv"));
    res.push(join(home, "venv"));
    assert(res@.map_values(|p: String| p@) =~= dependency_names().map_values(
        |n: Seq<char>| joined(home@, n),
    ));
    res
}

/// What the rule proposes for a dependency directory right in the home directory.
pub open spec fn home_dependency(home: Seq<char>, name: Seq<char>) -> RawCandidateView {
    RawCandidateView {
        plugin: "project-dependencies"@,
        category: Category::ProjectDependencies,
        risk: Risk::Review,
        path: joined(home, name),
        reason: "用户目录直属依赖 "@ + name + "，删除后需要重新安装"@,
    }
}

/// The proposals for the first `n` dependency names, those that are real directories.
pub open spec fn home_dependencies_upto(home: Seq<char>, real_dirs: Seq<bool>, n: int) -> Seq<
    RawCandidateView,
>
    decreases n,
{
    if n <= 0 {
        Seq::<RawCandidateView>::empty()
    } else {
        let r = home_dependencies_upto(home, real_dirs, n - 1);
        if real_dirs[n - 1] {
            r.push(home_dependency(home, dependency_names()[n - 1]))
        } else {
            r
        }
    }
}

/// Proposes the dependency directories right in the home directory, given for each
/// name of `dependency_names` whether its path is a directory and no symbolic link.
pub fn home_dependencies(home: &str, real_dirs: &[bool]) -> (res: Vec<RawCandidate>)
    requires
        real_dirs.len() == 3,
    ensures
        res@.map_values(|r: RawCandidate| r@) == home_dependencies_upto(home@, real_dirs@, 3),
{
    let list = dependency_list();
    let mut res: Vec<RawCandidate> = Vec::new();
    let mut i: usize = 0;
    assert(views(list@).len() == list@.len());
    while i < 3
        invariant
            i <= 3,
            list.len() == 3,
            real_dirs.len() == 3,
            views(list@) == dependency_names(),
            res@.map_values(|r: RawCandidate| r@) == home_dependencies_upto(home@, real_dirs@, i as int),
        decreases 3 - i,
    {
        if real_dirs[i] {
            let name = string_of(list[i].as_slice());
            assert(views(list@)[i as int] == list@[i as int]@);
            assert(name@ == dependency_names()[i as int]);
            let mut reason = "用户目录直属依赖 ".to_string();
            reason.append(name.as_str());
            reason.append("，删除后需要重新安装");
            let r = RawCandidate {
                plugin: "project-dependencies".to_string(),
                category: Category::ProjectDependencies,
                risk: Risk::Review,
                path: join(home, name.as_str()),
                reason,
            };
            let ghost before = res@;
            res.push(r);
            assert(res@.map_values(|r: RawCandidate| r@) =~= before.map_values(|r: RawCandidate| r@).push(r@));
        }
        i = i + 1;
    }
    res
}

/// An entry of a directory read during the walk.
pub struct DirEntryInfo {
    pub path: String,
    pub name: String,
    pub is_symlink: bool,
    pub is_dir: bool,
}

/// The contents of a `DirEntryInfo`.
pub struct DirEntryView {
    pub path: Seq<char>,
    pub name: Seq<char>,
    pub is_symlink: bool,
    pub is_dir: bool,
}

impl View for DirEntryInfo {
    type V = DirEntryView;

    open spec fn view(&self) -> DirEntryView {
        DirEntryView { path: self.path@, name: self.name@, is_symlink: self.is_symlink, is_dir: self.is_dir }
    }
}

/// A real directory that the walk looks at: no symbolic link, not skipped.
pub open spec fn walked(e: DirEntryView) -> bool {
    !e.is_symlink && e.is_dir && !walk_skips().contains(e.name)
}

/// The project a dependency directory belongs to: the parent of its path, or the
/// project root where the path has none.
pub open spec fn project_of(root: Seq<char>, path: Seq<char>) -> Seq<char> {
    match parent_text(path) {
        Some(p) => p,
        None => root,
    }
}

/// What the rule proposes for a dependency directory found below the project root `root`.
pub open spec fn project_dependency(root: Seq<char>, e: DirEntryView) -> RawCandidateView {
    RawCandidateView {
        plugin: "project-dependencies"@,
        category: Category::ProjectDependencies,
        risk: Risk::Review,
        path: e.path,
        reason: "项目 "@ + project_of(root, e.path) + " 的 "@ + e.name + "，删除后需要重新安装依赖"@,
    }
}

/// The proposals among the first `n` entries of a directory below `root`, in order.
pub open spec fn proposals_upto(root: Seq<char>, es: Seq<DirEntryView>, n: int) -> Seq<RawCandidateView>
    decreases n,
{
    if n <= 0 {
        Seq::<RawCandidateView>::empty()
    } else {
        let r = proposals_upto(root, es, n - 1);
        let e = es[n - 1];
        if walked(e) && dependency_names().contains(e.name) {
            r.push(project_dependency(root, e))
        } else {
            r
        }
    }
}

/// The directories among the first `n` entries that the walk enters next, with
/// their depth.
pub open spec fn descents_upto(es: Seq<DirEntryView>, depth: nat, n: int) -> Seq<(Seq<char>, nat)>
    decreases n,
{
    if n <= 0 {
        Seq::<(Seq<char>, nat)>::empty()
    } else {
        let r = descents_upto(es, depth, n - 1);
        let e = es[n - 1];
        if walked(e) && !dependency_names().contains(e.name) {
            r.push((e.path, depth + 1))
        } else {
            r
        }
    }
}

/// The walk below one project root: the root, and the directories still to read,
/// last one first.
pub struct DependencyWalk {
    pub root: String,
    pub stack: Vec<(String, usize)>,
}

/// The views of the walk's pending directories.
pub open spec fn stack_views(s: Seq<(String, usize)>) -> Seq<(Seq<char>, nat)> {
    s.map_values(|e: (String, usize)| (e.0@, e.1 as nat))
}

/// The views of directory entries.
pub open spec fn entry_views(s: Seq<DirEntryInfo>) -> Seq<DirEntryView> {
    s.map_values(|e: DirEntryInfo| e@)
}

impl DependencyWalk {
    /// A walk that starts at a project root, at depth zero.
    pub fn new(root: &str) -> (res: DependencyWalk)
        ensures
            res.root@ == root@,
            stack_views(res.stack@) == seq![(root@, 0nat)],
    {
        let mut stack: Vec<(String, usize)> = Vec::new();
        stack.push((root.to_string(), 0));
        assert(stack_views(stack@) =~= seq![(root@, 0nat)]);
        DependencyWalk { root: root.to_string(), stack }
    }

    /// The next directory to look at, taken from the top of the stack.
    pub fn next(&mut self) -> (res: Option<(String, usize)>)
        ensures
            final(self).root == old(self).root,
            old(self).stack@.len() == 0 ==> res is None && final(self).stack@ == old(self).stack@,
            old(self).stack@.len() > 0 ==> res == Some(old(self).stack@.last())
                && final(self).stack@ == old(self).stack@.drop_last(),
    {
        self.stack.pop()
    }

    /// Whether a directory at `depth` is read: the scan was not cancelled and the
    /// directory lies less than eight levels below the root.
    pub fn should_read(depth: usize, cancelled: bool) -> (res: bool)
        ensures
            res == read_at(depth as nat, cancelled),
            res == (!cancelled && depth < max_depth()),
            res == (!cancelled && depth <= 7),
    {
        !cancelled && depth < 8
    }

    /// Looks at the entries of a directory read at `depth`: proposes the dependency
    /// directories among them and puts the other real directories on the stack, in
    /// order.
    pub fn visit(&mut self, depth: usize, entries: &[DirEntryInfo]) -> (res: Vec<RawCandidate>)
        requires
            depth < max_depth(),
        ensures
            final(self).root == old(self).root,
            res@.map_values(|r: RawCandidate| r@) == proposals_upto(
                old(self).root@,
                entry_views(entries@),
                entries@.len() as int,
            ),
            stack_views(final(self).stack@) == stack_views(old(self).stack@) + descents_upto(
                entry_views(entries@),
                depth as nat,
                entries@.len() as int,
            ),
    {
        let deps = dependency_list();
        let skips = skip_list();
        let ghost start = stack_views(self.stack@);
        let ghost ev = entry_views(entries@);
        let mut res: Vec<RawCandidate> = Vec::new();
        let mut i: usize = 0;
        assert(stack_views(self.stack@) =~= start + descents_upto(ev, depth as nat, 0));
        while i < entries.len()
            invariant
                i <= entries.len(),
                depth < max_depth(),
                ev == entry_views(entries@),
                views(deps@) == dependency_names(),
                views(skips@) == walk_skips(),
                self.root == old(self).root,
                res@.map_values(|r: RawCandidate| r@) == proposals_upto(self.root@, ev, i as int),
                stack_views(self.stack@) == start + descents_upto(ev, depth as nat, i as int),
            decreases entries.len() - i,
        {
            let e = &entries[i];
            assert(ev[i as int] == e@);
            let name = chars_of(e.name.as_str());
            let walkable = !e.is_symlink && e.is_dir && !names_contain(&skips, &name);
            if walkable && names_contain(&deps, &name) {
                let mut reason = "项目 ".to_string();
                match parent_of(e.path.as_str()) {
                    Some(p) => reason.append(p.as_str()),
                    None => reason.append(self.root.as_str()),
                }
                reason.append(" 的 ");
                reason.append(e.name.as_str());
                reason.append("，删除后需要重新安装依赖");
                let r = RawCandidate {
                    plugin: "project-dependencies".to_string(),
                    category: Category::ProjectDependencies,
                    risk: Risk::Review,
                    path: e.path.clone(),
                    reason,
                };
                let ghost before = res@;
                res.push(r);
                assert(res@.map_values(|r: RawCandidate| r@) =~= before.map_values(|r: RawCandidate| r@).push(r@));
                assert(stack_views(self.stack@) =~= start + descents_upto(ev, depth as nat, i + 1));
            } else if walkable {
                let ghost before = self.stack@;
                self.stack.push((e.path.clone(), depth + 1));
                assert(stack_views(self.stack@) =~= stack_views(before).push((e.path@, (depth + 1) as nat)));
                assert(stack_views(self.stack@) =~= start + descents_upto(ev, depth as nat, i + 1));
            } else {
                assert(stack_views(self.stack@) =~= start + descents_upto(ev, depth as nat, i + 1));
            }
            i = i + 1;
        }
        res
    }
}

} // verus!

//! The in-memory index of registered locations and their projects, and the
//! computations made on it: assembling it from stored rows, the names that
//! completion offers, the listing shown to the user, which folders on disk
//! are Rust projects, and bringing a location's list in line with the disk.

use vstd::prelude::*;
use crate::text::{views, concat3, holds_text};
use crate::models::{Path, Project};

verus! {

/// A registered location with the names of its projects.
pub struct PathIndex {
    pub id: String,
    pub path: String,
    pub prefix: String,
    pub projects: Vec<String>,
}

/// All registered locations, in the order they were stored.
pub struct Index {
    pub paths: Vec<PathIndex>,
}

// ---------------------------------------------------------------------------
// Assembling the index from stored rows

/// The names of the projects stored under the location `id`, in stored order.
pub open spec fn names_under(projects: Seq<Project>, id: Seq<char>) -> Seq<Seq<char>>
    decreases projects.len(),
{
    if projects.len() == 0 {
        Seq::<Seq<char>>::empty()
    } else {
        let rest = names_under(projects.drop_last(), id);
        if projects.last().path_id@ == id {
            rest.push(projects.last().name@)
        } else {
            rest
        }
    }
}

/// Whether `entry` is the index entry of the stored location `row` with the
/// given stored projects.
pub open spec fn indexes_row(entry: PathIndex, row: Path, projects: Seq<Project>) -> bool {
    &&& entry.id@ == row.id@
    &&& entry.path@ == row.path@
    &&& entry.prefix@ == row.prefix@
    &&& views(entry.projects@) == names_under(projects, row.id@)
}

fn project_names_under(projects: &Vec<Project>, id: &String) -> (names: Vec<String>)
    ensures
        views(names@) == names_under(projects@, id@),
{
    let mut names: Vec<String> = Vec::new();
    let n = projects.len();
    let mut i: usize = 0;
    while i < n
        invariant
            n == projects@.len(),
            i <= n,
            views(names@) == names_under(projects@.take(i as int), id@),
        decreases n - i,
    {
        let ghost before = views(names@);
        assert(projects@.take(i + 1).drop_last() =~= projects@.take(i as int));
        if projects[i].path_id == *id {
            names.push(projects[i].name.clone());
            assert(views(names@) =~= before.push(projects@[i as int].name@));
        }
        i = i + 1;
    }
    assert(projects@.take(n as int) =~= projects@);
    names
}

/// The index of the stored locations, each with the names of the stored
/// projects that belong to it.
pub fn build_index(paths: &Vec<Path>, projects: &Vec<Project>) -> (index: Index)
    ensures
        index.paths@.len() == paths@.len(),
        forall|i: int|
            0 <= i < paths@.len() ==> indexes_row(
                #[trigger] index.paths@[i],
                paths@[i],
                projects@,
            ),
{
    let mut entries: Vec<PathIndex> = Vec::new();
    let n = paths.len();
    let mut i: usize = 0;
    while i < n
        invariant
            n == paths@.len(),
            i <= n,
            entries@.len() == i,
            forall|k: int|
                0 <= k < i ==> indexes_row(#[trigger] entries@[k], paths@[k], projects@),
        decreases n - i,
    {
        let row = &paths[i];
        let entry = PathIndex {
            id: row.id.clone(),
            path: row.path.clone(),
            prefix: row.prefix.clone(),
            projects: project_names_under(projects, &row.id),
        };
        entries.push(entry);
        i = i + 1;
    }
    Index { paths: entries }
}

// ---------------------------------------------------------------------------
// Commands offered for completion

/// The names by which the projects of one location are opened: the prefix,
/// a dot, and the project's name.
pub open spec fn qualified(p: PathIndex) -> Seq<Seq<char>> {
    views(p.projects@).map_values(|n: Seq<char>| p.prefix@ + seq!['.'] + n)
}

/// The qualified names of all projects, location by location.
pub open spec fn qualified_names(paths: Seq<PathIndex>) -> Seq<Seq<char>>
    decreases paths.len(),
{
    if paths.len() == 0 {
        Seq::<Seq<char>>::empty()
    } else {
        qualified_names(paths.drop_last()) + qualified(paths.last())
    }
}

/// The commands that are always available.
pub open spec fn builtin_commands() -> Seq<Seq<char>> {
    seq!["help"@, "exit"@, "add-location"@, "list"@]
}

fn qualify_into(out: &mut Vec<String>, p: &PathIndex)
    ensures
        views(final(out)@) == views(old(out)@) + qualified(*p),
{
    let n = p.projects.len();
    let mut i: usize = 0;
    let ghost start = views(out@);
    proof {
        reveal_strlit(".");
    }
    while i < n
        invariant
            n == p.projects@.len(),
            i <= n,
            "."@ == seq!['.'],
            views(out@) == start + qualified(*p).take(i as int),
        decreases n - i,
    {
        let ghost before = views(out@);
        let name = concat3(p.prefix.as_str(), ".", p.projects[i].as_str());
        out.push(name);
        assert(qualified(*p).take(i + 1) =~= qualified(*p).take(i as int).push(
            p.prefix@ + seq!['.'] + p.projects@[i as int]@,
        ));
        assert(views(out@) =~= before.push(name@));
        i = i + 1;
    }
    assert(qualified(*p).take(n as int) =~= qualified(*p));
}

/// The qualified names of all projects, and the commands offered for
/// completion: the four built-in commands followed by those names.
pub fn initialize(projects: &Index) -> (res: (Vec<String>, Vec<String>))
    ensures
        views(res.0@) == qualified_names(projects.paths@),
        views(res.1@) == builtin_commands() + qualified_names(projects.paths@),
{
    let mut complete_projects: Vec<String> = Vec::new();
    let n = projects.paths.len();
    let mut i: usize = 0;
    while i < n
        invariant
            n == projects.paths@.len(),
            i <= n,
            views(complete_projects@) == qualified_names(projects.paths@.take(i as int)),
        decreases n - i,
    {
        assert(projects.paths@.take(i + 1).drop_last() =~= projects.paths@.take(i as int));
        qualify_into(&mut complete_projects, &projects.paths[i]);
        i = i + 1;
    }
    assert(projects.paths@.take(n as int) =~= projects.paths@);
    let mut commands: Vec<String> = Vec::new();
    commands.push("help".to_owned());
    commands.push("exit".to_owned());
    commands.push("add-location".to_owned());
    commands.push("list".to_owned());
    assert(views(commands@) =~= builtin_commands());
    let m = complete_projects.len();
    let mut j: usize = 0;
    while j < m
        invariant
            m == complete_projects@.len(),
            j <= m,
            views(commands@) == builtin_commands() + views(complete_projects@).take(j as int),
        decreases m - j,
    {
        let ghost before = views(commands@);
        commands.push(complete_projects[j].clone());
        assert(views(commands@) =~= before.push(complete_projects@[j as int]@));
        assert(views(complete_projects@).take(j + 1) =~= views(complete_projects@).take(
            j as int,
        ).push(complete_projects@[j as int]@));
        j = j + 1;
    }
    assert(views(complete_projects@).take(m as int) =~= views(complete_projects@));
    (complete_projects, commands)
}

// ---------------------------------------------------------------------------
// The listing of all projects

/// One line per project name, each as `\t- name`.
pub open spec fn project_lines(names: Seq<Seq<char>>) -> Seq<char>
    decreases names.len(),
{
    if names.len() == 0 {
        Seq::<char>::empty()
    } else {
        project_lines(names.drop_last()) + "\t- "@ + names.last() + "\n"@
    }
}

/// A location's path on a line of its own, followed by its projects.
pub open spec fn location_block(p: PathIndex) -> Seq<char> {
    p.path@ + ":\n"@ + project_lines(views(p.projects@))
}

pub open spec fn location_blocks(paths: Seq<PathIndex>) -> Seq<char>
    decreases paths.len(),
{
    if paths.len() == 0 {
        Seq::<char>::empty()
    } else {
        location_blocks(paths.drop_last()) + location_block(paths.last())
    }
}

/// The text shown for the whole index: a notice when nothing is registered,
/// else a header, every location with its projects, and a blank line.
pub open spec fn listing(paths: Seq<PathIndex>) -> Seq<char> {
    if paths.len() == 0 {
        "No projects registered yet!\nTry 'add-location [path] [prefix]' to add a directory with projects!\n\n"@
    } else {
        "Included projects:\n"@ + location_blocks(paths) + "\n"@
    }
}

fn append_location(out: &mut String, p: &PathIndex)
    ensures
        final(out)@ == old(out)@ + location_block(*p),
{
    out.append(p.path.as_str());
    out.append(":\n");
    let ghost head = out@;
    let n = p.projects.len();
    let mut i: usize = 0;
    while i < n
        invariant
            n == p.projects@.len(),
            i <= n,
            out@ == head + project_lines(views(p.projects@).take(i as int)),
        decreases n - i,
    {
        assert(views(p.projects@).take(i + 1).drop_last() =~= views(p.projects@).take(i as int));
        out.append("\t- ");
        out.append(p.projects[i].as_str());
        out.append("\n");
        i = i + 1;
    }
    assert(views(p.projects@).take(n as int) =~= views(p.projects@));
}

/// The text that lists every registered location and its projects.
pub fn projects_listing(projects: &Index) -> (text: String)
    ensures
        text@ == listing(projects.paths@),
{
    let n = projects.paths.len();
    if n == 0 {
        return "No projects registered yet!\nTry 'add-location [path] [prefix]' to add a directory with projects!\n\n".to_owned();
    }
    let mut out = "Included projects:\n".to_owned();
    let mut i: usize = 0;
    while i < n
        invariant
            n == projects.paths@.len(),
            i <= n,
            out@ == "Included projects:\n"@ + location_blocks(projects.paths@.take(i as int)),
        decreases n - i,
    {
        assert(projects.paths@.take(i + 1).drop_last() =~= projects.paths@.take(i as int));
        append_location(&mut out, &projects.paths[i]);
        i = i + 1;
    }
    assert(projects.paths@.take(n as int) =~= projects.paths@);
    out.append("\n");
    out
}

// ---------------------------------------------------------------------------
// Recognizing Rust projects on disk

/// An entry of a folder's listing.
pub struct FileEntry {
    pub name: String,
    pub is_file: bool,
}

/// An entry of a location's listing; when it is a folder, `files` lists what
/// it holds.
pub struct DirEntry {
    pub name: String,
    pub is_dir: bool,
    pub files: Vec<FileEntry>,
}

/// Whether a folder entry marks its folder as a Rust project.
pub open spec fn is_manifest(f: FileEntry) -> bool {
    f.is_file && f.name@ == "Cargo.toml"@
}

/// The folder name `name` once for every manifest among `files`.
pub open spec fn manifest_marks(files: Seq<FileEntry>, name: Seq<char>) -> Seq<Seq<char>>
    decreases files.len(),
{
    if files.len() == 0 {
        Seq::<Seq<char>>::empty()
    } else {
        let rest = manifest_marks(files.drop_last(), name);
        if is_manifest(files.last()) {
            rest.push(name)
        } else {
            rest
        }
    }
}

/// The names of the sub-folders that hold a `Cargo.toml` file, in listing
/// order.
pub open spec fn project_folders(entries: Seq<DirEntry>) -> Seq<Seq<char>>
    decreases entries.len(),
{
    if entries.len() == 0 {
        Seq::<Seq<char>>::empty()
    } else {
        let e = entries.last();
        project_folders(entries.drop_last()) + if e.is_dir {
            manifest_marks(e.files@, e.name@)
        } else {
            Seq::<Seq<char>>::empty()
        }
    }
}

fn mark_manifests(out: &mut Vec<String>, e: &DirEntry)
    ensures
        views(final(out)@) == views(old(out)@) + manifest_marks(e.files@, e.name@),
{
    let manifest = "Cargo.toml".to_owned();
    let ghost start = views(out@);
    let n = e.files.len();
    let mut i: usize = 0;
    while i < n
        invariant
            n == e.files@.len(),
            i <= n,
            manifest@ == "Cargo.toml"@,
            views(out@) == start + manifest_marks(e.files@.take(i as int), e.name@),
        decreases n - i,
    {
        assert(e.files@.take(i + 1).drop_last() =~= e.files@.take(i as int));
        let ghost before = views(out@);
        if e.files[i].is_file && e.files[i].name == manifest {
            out.push(e.name.clone());
            assert(views(out@) =~= before.push(e.name@));
        }
        i = i + 1;
    }
    assert(e.files@.take(n as int) =~= e.files@);
}

/// The names of the sub-folders of a location that are Rust projects: those
/// that hold a file named `Cargo.toml`.
pub fn rust_projects(entries: &Vec<DirEntry>) -> (names: Vec<String>)
    ensures
        views(names@) == project_folders(entries@),
{
    let mut names: Vec<String> = Vec::new();
    let n = entries.len();
    let mut i: usize = 0;
    while i < n
        invariant
            n == entries@.len(),
            i <= n,
            views(names@) == project_folders(entries@.take(i as int)),
        decreases n - i,
    {
        assert(entries@.take(i + 1).drop_last() =~= entries@.take(i as int));
        if entries[i].is_dir {
            mark_manifests(&mut names, &entries[i]);
        } else {
            assert(views(names@) =~= views(names@) + Seq::<Seq<char>>::empty());
        }
        i = i + 1;
    }
    assert(entries@.take(n as int) =~= entries@);
    names
}

// ---------------------------------------------------------------------------
// Bringing a location's project list in line with the disk

/// A project folder found on disk, and whether the store held a project of
/// that name in the location before the scan began.
pub struct ScannedProject {
    pub name: String,
    pub indexed: bool,
}

/// What an update of one location does: the projects it stores, the stored
/// projects it deletes, and the location's new list.
pub struct Reconciliation {
    pub created: Vec<String>,
    pub stale: Vec<String>,
    pub projects: Vec<String>,
}

pub open spec fn found_names(found: Seq<ScannedProject>) -> Seq<Seq<char>> {
    found.map_values(|f: ScannedProject| f.name@)
}

/// The projects a scan stores, in scan order: those that the store did not
/// hold before the scan and that the scan has not stored already.
pub open spec fn created_names(found: Seq<ScannedProject>) -> Seq<Seq<char>>
    decreases found.len(),
{
    if found.len() == 0 {
        Seq::<Seq<char>>::empty()
    } else {
        let rest = created_names(found.drop_last());
        let f = found.last();
        if !f.indexed && !rest.contains(f.name@) {
            rest.push(f.name@)
        } else {
            rest
        }
    }
}

/// The list of a location once the newly stored projects are appended.
pub open spec fn extended_list(projects: Seq<Seq<char>>, found: Seq<ScannedProject>) -> Seq<Seq<char>> {
    projects + created_names(found)
}

/// The entries of `list` that are in `lookup`, in order.
pub open spec fn kept_entries(list: Seq<Seq<char>>, lookup: Seq<Seq<char>>) -> Seq<Seq<char>>
    decreases list.len(),
{
    if list.len() == 0 {
        Seq::<Seq<char>>::empty()
    } else {
        let rest = kept_entries(list.drop_last(), lookup);
        if lookup.contains(list.last()) {
            rest.push(list.last())
        } else {
            rest
        }
    }
}

/// The entries of `list` that are not in `lookup`, in order.
pub open spec fn stale_entries(list: Seq<Seq<char>>, lookup: Seq<Seq<char>>) -> Seq<Seq<char>>
    decreases list.len(),
{
    if list.len() == 0 {
        Seq::<Seq<char>>::empty()
    } else {
        let rest = stale_entries(list.drop_last(), lookup);
        if !lookup.contains(list.last()) {
            rest.push(list.last())
        } else {
            rest
        }
    }
}

/// The listed projects that a scan did not find on disk: those it deletes.
pub open spec fn scan_stale(projects: Seq<Seq<char>>, found: Seq<ScannedProject>) -> Seq<Seq<char>> {
    stale_entries(extended_list(projects, found), found_names(found))
}

/// The list of a location after a scan: the listed and newly stored projects
/// that were found on disk, in order.
pub open spec fn scan_result(projects: Seq<Seq<char>>, found: Seq<ScannedProject>) -> Seq<Seq<char>> {
    kept_entries(extended_list(projects, found), found_names(found))
}

/// Whether no name occurs twice.
pub open spec fn distinct(s: Seq<Seq<char>>) -> bool {
    forall|a: int, b: int| 0 <= a < b < s.len() ==> #[trigger] s[a] != #[trigger] s[b]
}

fn found_holds(found: &Vec<ScannedProject>, s: &String) -> (b: bool)
    ensures
        b == found_names(found@).contains(s@),
{
    let n = found.len();
    let mut i: usize = 0;
    while i < n
        invariant
            n == found@.len(),
            i <= n,
            forall|k: int| 0 <= k < i ==> found@[k].name@ != s@,
        decreases n - i,
    {
        if found[i].name == *s {
            assert(found_names(found@)[i as int] == s@);
            return true;
        }
        i = i + 1;
    }
    assert forall|k: int| 0 <= k < found_names(found@).len() implies found_names(found@)[k] != s@ by {
        assert(found@[k].name@ != s@);
    }
    false
}

fn new_projects(found: &Vec<ScannedProject>) -> (created: Vec<String>)
    ensures
        views(created@) == created_names(found@),
{
    let mut created: Vec<String> = Vec::new();
    let n = found.len();
    let mut i: usize = 0;
    while i < n
        invariant
            n == found@.len(),
            i <= n,
            views(created@) == created_names(found@.take(i as int)),
        decreases n - i,
    {
        assert(found@.take(i + 1).drop_last() =~= found@.take(i as int));
        let ghost before = views(created@);
        if !found[i].indexed && !holds_text(&created, &found[i].name) {
            created.push(found[i].name.clone());
            assert(views(created@) =~= before.push(found@[i as int].name@));
        }
        i = i + 1;
    }
    assert(found@.take(n as int) =~= found@);
    created
}

/// The result of a scan of one location whose stored list is `projects`:
/// the found projects that the store did not hold are stored and appended,
/// the listed projects that were not found are deleted, and the new list
/// keeps, in order, the listed and newly stored projects that are on disk.
pub fn reconcile(projects: &Vec<String>, found: &Vec<ScannedProject>) -> (r: Reconciliation)
    ensures
        views(r.created@) == created_names(found@),
        views(r.stale@) == scan_stale(views(projects@), found@),
        views(r.projects@) == scan_result(views(projects@), found@),
{
    let created = new_projects(found);
    let mut list: Vec<String> = Vec::new();
    let n0 = projects.len();
    let mut i: usize = 0;
    while i < n0
        invariant
            n0 == projects@.len(),
            i <= n0,
            views(list@) == views(projects@).take(i as int),
        decreases n0 - i,
    {
        let ghost before = views(list@);
        let item = projects[i].clone();
        list.push(item);
        assert(views(list@) =~= before.push(projects@[i as int]@));
        assert(views(projects@).take(i + 1) =~= views(projects@).take(i as int).push(
            projects@[i as int]@,
        ));
        i = i + 1;
    }
    let n1 = created.len();
    let mut j: usize = 0;
    while j < n1
        invariant
            n0 == projects@.len(),
            n1 == created@.len(),
            j <= n1,
            views(list@) == views(projects@).take(n0 as int) + views(created@).take(j as int),
        decreases n1 - j,
    {
        let ghost before = views(list@);
        let item = created[j].clone();
        list.push(item);
        assert(views(list@) =~= before.push(created@[j as int]@));
        assert(views(created@).take(j + 1) =~= views(created@).take(j as int).push(
            created@[j as int]@,
        ));
        j = j + 1;
    }
    let ghost ext = extended_list(views(projects@), found@);
    let ghost lookup = found_names(found@);
    assert(views(projects@).take(n0 as int) =~= views(projects@));
    assert(views(created@).take(n1 as int) =~= views(created@));
    assert(views(list@) =~= ext);

    let mut kept: Vec<String> = Vec::new();
    let mut stale: Vec<String> = Vec::new();
    let n = list.len();
    let mut k: usize = 0;
    while k < n
        invariant
            n == list@.len(),
            k <= n,
            views(list@) == ext,
            lookup == found_names(found@),
            views(kept@) == kept_entries(ext.take(k as int), lookup),
            views(stale@) == stale_entries(ext.take(k as int), lookup),
        decreases n - k,
    {
        let ghost prefix = ext.take(k + 1);
        assert(prefix.drop_last() =~= ext.take(k as int));
        assert(prefix.last() == ext[k as int]);
        assert(views(list@)[k as int] == list@[k as int]@);
        let ghost old_kept = views(kept@);
        let ghost old_stale = views(stale@);
        let item = list[k].clone();
        if found_holds(found, &list[k]) {
            kept.push(item);
            assert(views(kept@) =~= old_kept.push(ext[k as int]));
        } else {
            stale.push(item);
            assert(views(stale@) =~= old_stale.push(ext[k as int]));
        }
        k = k + 1;
    }
    assert(ext.take(n as int) =~= ext);
    Reconciliation { created, stale, projects: kept }
}

// ---------------------------------------------------------------------------
// Laws

/// A project stored under a location is listed last among that location's
/// projects when the index is built again, and a project stored under
/// another location leaves the list as it was.
pub proof fn law_stored_project_is_listed(projects: Seq<Project>, row: Project, id: Seq<char>)
    ensures
        row.path_id@ == id ==> names_under(projects.push(row), id) == names_under(projects, id).push(row.name@),
        row.path_id@ != id ==> names_under(projects.push(row), id) == names_under(projects, id),
{
    assert(projects.push(row).drop_last() =~= projects);
}

/// Every project of every location is offered under its qualified name.
pub proof fn law_every_project_is_offered(paths: Seq<PathIndex>, i: int, j: int)
    requires
        0 <= i < paths.len(),
        0 <= j < paths[i].projects@.len(),
    ensures
        qualified_names(paths).contains(paths[i].prefix@ + seq!['.'] + paths[i].projects@[j]@),
    decreases paths.len(),
{
    let name = paths[i].prefix@ + seq!['.'] + paths[i].projects@[j]@;
    let rest = paths.drop_last();
    if i < paths.len() - 1 {
        assert(rest[i] == paths[i]);
        law_every_project_is_offered(rest, i, j);
        let k = choose|k: int| 0 <= k < qualified_names(rest).len() && qualified_names(rest)[k] == name;
        assert(qualified_names(paths)[k] == name);
    } else {
        let q = qualified(paths.last());
        assert(q[j] == name);
        assert(qualified_names(paths)[qualified_names(rest).len() + j] == name);
    }
}

/// The kept entries are the entries of the list that are in `lookup`, the
/// stale entries those that are not; a list without repeated names gives
/// kept entries without repeated names.
pub proof fn lemma_entries_split(list: Seq<Seq<char>>, lookup: Seq<Seq<char>>)
    ensures
        forall|x: Seq<char>|
            #[trigger] kept_entries(list, lookup).contains(x) <==> list.contains(x) && lookup.contains(x),
        forall|x: Seq<char>|
            #[trigger] stale_entries(list, lookup).contains(x) <==> list.contains(x) && !lookup.contains(x),
        distinct(list) ==> distinct(kept_entries(list, lookup)),
    decreases list.len(),
{
    if list.len() > 0 {
        let rest = list.drop_last();
        let x0 = list.last();
        lemma_entries_split(rest, lookup);
        let kr = kept_entries(rest, lookup);
        let sr = stale_entries(rest, lookup);
        let k = kept_entries(list, lookup);
        let s = stale_entries(list, lookup);
        assert forall|x: Seq<char>| list.contains(x) <==> rest.contains(x) || x == x0 by {
            if list.contains(x) {
                let i = choose|i: int| 0 <= i < list.len() && list[i] == x;
                if i < list.len() - 1 {
                    assert(rest[i] == x);
                }
            }
            if rest.contains(x) {
                let i = choose|i: int| 0 <= i < rest.len() && rest[i] == x;
                assert(list[i] == x);
            }
            if x == x0 {
                assert(list[list.len() - 1] == x);
            }
        }
        assert forall|x: Seq<char>| #[trigger] k.contains(x) <==> list.contains(x) && lookup.contains(x) by {
            if lookup.contains(x0) {
                assert(k == kr.push(x0));
                if k.contains(x) && x != x0 {
                    let i = choose|i: int| 0 <= i < k.len() && k[i] == x;
                    assert(kr[i] == x);
                }
                if kr.contains(x) {
                    let i = choose|i: int| 0 <= i < kr.len() && kr[i] == x;
                    assert(k[i] == x);
                }
                assert(k[k.len() - 1] == x0);
            }
        }
        assert forall|x: Seq<char>| #[trigger] s.contains(x) <==> list.contains(x) && !lookup.contains(x) by {
            if !lookup.contains(x0) {
                assert(s == sr.push(x0));
                if s.contains(x) && x != x0 {
                    let i = choose|i: int| 0 <= i < s.len() && s[i] == x;
                    assert(sr[i] == x);
                }
                if sr.contains(x) {
                    let i = choose|i: int| 0 <= i < sr.len() && sr[i] == x;
                    assert(s[i] == x);
                }
                assert(s[s.len() - 1] == x0);
            }
        }
        if distinct(list) {
            assert(distinct(rest)) by {
                assert forall|a: int, b: int| 0 <= a < b < rest.len() implies #[trigger] rest[a] != #[trigger] rest[b] by {
                    assert(list[a] != list[b]);
                }
            }
            if lookup.contains(x0) {
                assert(!rest.contains(x0)) by {
                    if rest.contains(x0) {
                        let i = choose|i: int| 0 <= i < rest.len() && rest[i] == x0;
                        assert(list[i] != list[list.len() - 1]);
                    }
                }
                assert(!kr.contains(x0));
                assert forall|a: int, b: int| 0 <= a < b < k.len() implies #[trigger] k[a] != #[trigger] k[b] by {
                    if b == k.len() - 1 {
                        assert(kr[a] == k[a]);
                    } else {
                        assert(kr[a] != kr[b]);
                    }
                }
            }
        }
    }
}

/// An update keeps exactly what is on disk, however many listed projects
/// are gone: the new list holds a name exactly when the name was listed or
/// newly stored and was found on disk, and the deleted names are the listed
/// or newly stored names that were not found.
pub proof fn law_update_keeps_what_is_on_disk(projects: Seq<Seq<char>>, found: Seq<ScannedProject>)
    ensures
        forall|x: Seq<char>|
            #[trigger] scan_result(projects, found).contains(x) <==> extended_list(
                projects,
                found,
            ).contains(x) && found_names(found).contains(x),
        forall|x: Seq<char>|
            #[trigger] scan_stale(projects, found).contains(x) <==> extended_list(
                projects,
                found,
            ).contains(x) && !found_names(found).contains(x),
{
    lemma_entries_split(extended_list(projects, found), found_names(found));
}

/// When the location's list agrees with the store (a found project was
/// indexed exactly when it is listed) and repeats no name, the new list holds
/// exactly the project folders found on disk, each once.
pub proof fn law_update_lists_exactly_the_disk(projects: Seq<Seq<char>>, found: Seq<ScannedProject>)
    requires
        distinct(projects),
        forall|f: int| 0 <= f < found.len() ==> (#[trigger] found[f].indexed <==> projects.contains(found[f].name@)),
    ensures
        forall|x: Seq<char>|
            #[trigger] scan_result(projects, found).contains(x) <==> found_names(found).contains(x),
        distinct(scan_result(projects, found)),
{
    let ext = extended_list(projects, found);
    let lookup = found_names(found);
    let created = created_names(found);
    law_update_stores_each_new_project_once(found);
    lemma_entries_split(ext, lookup);
    assert forall|x: Seq<char>| #[trigger] lookup.contains(x) implies ext.contains(x) by {
        let f = choose|f: int| 0 <= f < lookup.len() && lookup[f] == x;
        assert(found[f].name@ == x);
        if found[f].indexed {
            let i = choose|i: int| 0 <= i < projects.len() && projects[i] == x;
            assert(ext[i] == x);
        } else {
            assert(created.contains(x));
            let i = choose|i: int| 0 <= i < created.len() && created[i] == x;
            assert(ext[projects.len() + i] == x);
        }
    }
    assert(distinct(ext)) by {
        assert forall|a: int, b: int| 0 <= a < b < ext.len() implies #[trigger] ext[a] != #[trigger] ext[b] by {
            if b < projects.len() {
                assert(projects[a] != projects[b]);
            } else if a >= projects.len() {
                assert(created[a - projects.len()] != created[b - projects.len()]);
            } else {
                let x = ext[b];
                assert(created[b - projects.len()] == x);
                assert(created.contains(x));
                let f = choose|f: int| 0 <= f < found.len() && found[f].name@ == x && !found[f].indexed;
                assert(!projects.contains(x));
                assert(projects[a] == ext[a]);
            }
        }
    }
}

/// An update repeated on an unchanged disk and store changes nothing: when
/// every found project is stored and the list holds exactly the found names,
/// each once, nothing is stored or deleted and the list stays as it is.
pub proof fn law_update_is_stable(projects: Seq<Seq<char>>, found: Seq<ScannedProject>)
    requires
        distinct(projects),
        forall|f: int| 0 <= f < found.len() ==> #[trigger] found[f].indexed,
        forall|x: Seq<char>| #[trigger] projects.contains(x) <==> found_names(found).contains(x),
    ensures
        created_names(found).len() == 0,
        scan_stale(projects, found).len() == 0,
        scan_result(projects, found) == projects,
{
    lemma_nothing_new(found);
    assert(extended_list(projects, found) =~= projects);
    lemma_all_kept(projects, found_names(found));
}

proof fn lemma_nothing_new(found: Seq<ScannedProject>)
    requires
        forall|f: int| 0 <= f < found.len() ==> #[trigger] found[f].indexed,
    ensures
        created_names(found) == Seq::<Seq<char>>::empty(),
    decreases found.len(),
{
    if found.len() > 0 {
        assert(found[found.len() - 1].indexed);
        lemma_nothing_new(found.drop_last());
    }
}

proof fn lemma_all_kept(list: Seq<Seq<char>>, lookup: Seq<Seq<char>>)
    requires
        forall|x: Seq<char>| #[trigger] list.contains(x) ==> lookup.contains(x),
    ensures
        kept_entries(list, lookup) == list,
        stale_entries(list, lookup) == Seq::<Seq<char>>::empty(),
    decreases list.len(),
{
    if list.len() > 0 {
        let rest = list.drop_last();
        assert forall|x: Seq<char>| #[trigger] rest.contains(x) implies lookup.contains(x) by {
            let i = choose|i: int| 0 <= i < rest.len() && rest[i] == x;
            assert(list[i] == x);
            assert(list.contains(x));
        }
        lemma_all_kept(rest, lookup);
        assert(list[list.len() - 1] == list.last());
        assert(list.contains(list.last()));
        assert(rest.push(list.last()) =~= list);
    }
}

/// A location whose folder cannot be read, or holds no project, keeps no
/// projects: every listed project is deleted.
pub proof fn law_empty_location_keeps_nothing(projects: Seq<Seq<char>>)
    ensures
        scan_result(projects, Seq::<ScannedProject>::empty()) == Seq::<Seq<char>>::empty(),
        scan_stale(projects, Seq::<ScannedProject>::empty()) == projects,
{
    let found = Seq::<ScannedProject>::empty();
    assert(created_names(found) == Seq::<Seq<char>>::empty());
    assert(extended_list(projects, found) =~= projects);
    assert(found_names(found) =~= Seq::<Seq<char>>::empty());
    lemma_nothing_kept(projects, found_names(found));
}

proof fn lemma_nothing_kept(list: Seq<Seq<char>>, lookup: Seq<Seq<char>>)
    requires
        lookup.len() == 0,
    ensures
        kept_entries(list, lookup) == Seq::<Seq<char>>::empty(),
        stale_entries(list, lookup) == list,
    decreases list.len(),
{
    if list.len() > 0 {
        lemma_nothing_kept(list.drop_last(), lookup);
        assert(list.drop_last().push(list.last()) =~= list);
    }
}

/// The names of `stored` that are not among `gone`, in order.
pub open spec fn drop_names(stored: Seq<Seq<char>>, gone: Seq<Seq<char>>) -> Seq<Seq<char>>
    decreases stored.len(),
{
    if stored.len() == 0 {
        Seq::<Seq<char>>::empty()
    } else {
        let rest = drop_names(stored.drop_last(), gone);
        if !gone.contains(stored.last()) {
            rest.push(stored.last())
        } else {
            rest
        }
    }
}

/// The names the store holds for a location, in stored order, once an update
/// has deleted the stale projects and appended the newly stored ones.
pub open spec fn stored_after(stored: Seq<Seq<char>>, found: Seq<ScannedProject>) -> Seq<Seq<char>> {
    drop_names(stored, scan_stale(stored, found)) + created_names(found)
}

/// The same project folders scanned again, each marked as indexed exactly
/// when the store now holds it.
pub open spec fn rescanned(found: Seq<ScannedProject>, stored: Seq<Seq<char>>) -> Seq<ScannedProject> {
    Seq::new(
        found.len(),
        |f: int| ScannedProject { name: found[f].name, indexed: stored.contains(found[f].name@) },
    )
}

proof fn lemma_kept_concat(a: Seq<Seq<char>>, b: Seq<Seq<char>>, lookup: Seq<Seq<char>>)
    ensures
        kept_entries(a + b, lookup) == kept_entries(a, lookup) + kept_entries(b, lookup),
    decreases b.len(),
{
    if b.len() == 0 {
        assert(a + b =~= a);
        assert(kept_entries(a, lookup) + kept_entries(b, lookup) =~= kept_entries(a, lookup));
    } else {
        assert((a + b).drop_last() =~= a + b.drop_last());
        assert((a + b).last() == b.last());
        lemma_kept_concat(a, b.drop_last(), lookup);
        if lookup.contains(b.last()) {
            assert(kept_entries(a, lookup) + kept_entries(b, lookup) =~= (kept_entries(a, lookup)
                + kept_entries(b.drop_last(), lookup)).push(b.last()));
        }
    }
}

proof fn lemma_drop_is_kept(stored: Seq<Seq<char>>, gone: Seq<Seq<char>>, lookup: Seq<Seq<char>>)
    requires
        forall|x: Seq<char>| #[trigger] stored.contains(x) ==> (gone.contains(x) <==> !lookup.contains(x)),
    ensures
        drop_names(stored, gone) == kept_entries(stored, lookup),
    decreases stored.len(),
{
    if stored.len() > 0 {
        let rest = stored.drop_last();
        assert forall|x: Seq<char>| #[trigger] rest.contains(x) implies (gone.contains(x) <==> !lookup.contains(x)) by {
            let i = choose|i: int| 0 <= i < rest.len() && rest[i] == x;
            assert(stored[i] == x);
            assert(stored.contains(x));
        }
        lemma_drop_is_kept(rest, gone, lookup);
        assert(stored[stored.len() - 1] == stored.last());
        assert(stored.contains(stored.last()));
    }
}

proof fn lemma_drop_nothing(stored: Seq<Seq<char>>, gone: Seq<Seq<char>>)
    requires
        gone.len() == 0,
    ensures
        drop_names(stored, gone) == stored,
    decreases stored.len(),
{
    if stored.len() > 0 {
        lemma_drop_nothing(stored.drop_last(), gone);
        assert(stored.drop_last().push(stored.last()) =~= stored);
    }
}

/// Loading the index again after an update, and updating again, changes
/// nothing: when a location's stored names repeat no name and the scan marks
/// a folder as indexed exactly when the store holds it, the store after the
/// update lists, in order, what the update left in the index; the same folders
/// scanned against that store store nothing, delete nothing and keep the
/// list; and the store stays as it is. (The rows of locations are not touched
/// by an update, and other locations' projects are kept apart by `path_id`.)
pub proof fn law_reload_changes_nothing(stored: Seq<Seq<char>>, found: Seq<ScannedProject>)
    requires
        distinct(stored),
        forall|f: int| 0 <= f < found.len() ==> (#[trigger] found[f].indexed <==> stored.contains(found[f].name@)),
    ensures
        stored_after(stored, found) == scan_result(stored, found),
        created_names(rescanned(found, stored_after(stored, found))).len() == 0,
        scan_stale(stored_after(stored, found), rescanned(found, stored_after(stored, found))).len() == 0,
        scan_result(stored_after(stored, found), rescanned(found, stored_after(stored, found)))
            == stored_after(stored, found),
        stored_after(stored_after(stored, found), rescanned(found, stored_after(stored, found)))
            == stored_after(stored, found),
{
    let lookup = found_names(found);
    let created = created_names(found);
    let ext = extended_list(stored, found);
    let stale = scan_stale(stored, found);
    law_update_keeps_what_is_on_disk(stored, found);
    law_update_lists_exactly_the_disk(stored, found);
    law_update_stores_each_new_project_once(found);
    // the deleted names are the stored names that were not found
    assert forall|x: Seq<char>| #[trigger] stored.contains(x) implies (stale.contains(x) <==> !lookup.contains(x)) by {
        let i = choose|i: int| 0 <= i < stored.len() && stored[i] == x;
        assert(ext[i] == x);
        assert(ext.contains(x));
    }
    lemma_drop_is_kept(stored, stale, lookup);
    // every newly stored name was found
    assert forall|x: Seq<char>| #[trigger] created.contains(x) implies lookup.contains(x) by {
        let f = choose|f: int| 0 <= f < found.len() && found[f].name@ == x && !found[f].indexed;
        assert(lookup[f] == x);
    }
    lemma_all_kept(created, lookup);
    lemma_kept_concat(stored, created, lookup);
    let after = stored_after(stored, found);
    assert(after == scan_result(stored, found));
    // scanning the same folders against the new store
    let again = rescanned(found, after);
    assert(found_names(again) =~= lookup);
    assert forall|f: int| 0 <= f < again.len() implies #[trigger] again[f].indexed by {
        assert(lookup[f] == found[f].name@);
        assert(lookup.contains(found[f].name@));
    }
    law_update_is_stable(after, again);
    lemma_drop_nothing(after, scan_stale(after, again));
    assert(created_names(again) =~= Seq::<Seq<char>>::empty());
    assert(stored_after(after, again) =~= after);
}

/// The projects an update stores are found projects that the store did not
/// hold, each stored once, and every such found project is stored.
pub proof fn law_update_stores_each_new_project_once(found: Seq<ScannedProject>)
    ensures
        forall|x: Seq<char>|
            #[trigger] created_names(found).contains(x) <==> exists|f: int|
                0 <= f < found.len() && found[f].name@ == x && !found[f].indexed,
        forall|a: int, b: int|
            0 <= a < b < created_names(found).len() ==> #[trigger] created_names(found)[a]
                != #[trigger] created_names(found)[b],
    decreases found.len(),
{
    if found.len() > 0 {
        let rest = found.drop_last();
        law_update_stores_each_new_project_once(rest);
        let cr = created_names(rest);
        let c = created_names(found);
        assert forall|x: Seq<char>| #[trigger] c.contains(x) <==> exists|f: int|
            0 <= f < found.len() && found[f].name@ == x && !found[f].indexed by {
            if c.contains(x) {
                if cr.contains(x) {
                    let f = choose|f: int| 0 <= f < rest.len() && rest[f].name@ == x && !rest[f].indexed;
                    assert(found[f] == rest[f]);
                } else {
                    assert(found[found.len() - 1].name@ == x);
                }
            }
            if exists|f: int| 0 <= f < found.len() && found[f].name@ == x && !found[f].indexed {
                let f = choose|f: int| 0 <= f < found.len() && found[f].name@ == x && !found[f].indexed;
                if f < found.len() - 1 {
                    assert(rest[f] == found[f]);
                    assert(cr.contains(x));
                    let m = choose|m: int| 0 <= m < cr.len() && cr[m] == x;
                    assert(c[m] == x);
                } else if cr.contains(x) {
                    let m = choose|m: int| 0 <= m < cr.len() && cr[m] == x;
                    assert(c[m] == x);
                } else {
                    assert(c[c.len() - 1] == x);
                }
            }
        }
    }
}

// ---------------------------------------------------------------------------
// Laws on recognizing project folders, assembling the index and the listing

/// Whether some entry of the folder is a regular file named `Cargo.toml`.
pub open spec fn has_manifest(e: DirEntry) -> bool {
    exists|k: int|
        0 <= k < e.files@.len() && (#[trigger] e.files@[k]).is_file && e.files@[k].name@
            == "Cargo.toml"@
}

proof fn lemma_manifest_marks(files: Seq<FileEntry>, name: Seq<char>)
    ensures
        forall|x: Seq<char>|
            #[trigger] manifest_marks(files, name).contains(x) <==> x == name && exists|k: int|
                0 <= k < files.len() && (#[trigger] files[k]).is_file && files[k].name@
                    == "Cargo.toml"@,
    decreases files.len(),
{
    if files.len() > 0 {
        let rest = files.drop_last();
        lemma_manifest_marks(rest, name);
        let m = manifest_marks(files, name);
        let mr = manifest_marks(rest, name);
        assert forall|x: Seq<char>|
            #[trigger] m.contains(x) <==> x == name && exists|k: int|
                0 <= k < files.len() && (#[trigger] files[k]).is_file && files[k].name@
                    == "Cargo.toml"@ by {
            if m.contains(x) {
                if mr.contains(x) {
                    let k = choose|k: int|
                        0 <= k < rest.len() && (#[trigger] rest[k]).is_file && rest[k].name@
                            == "Cargo.toml"@;
                    assert(files[k] == rest[k]);
                } else {
                    assert(is_manifest(files.last()));
                    assert(files[files.len() - 1] == files.last());
                }
            }
            if x == name && exists|k: int|
                0 <= k < files.len() && (#[trigger] files[k]).is_file && files[k].name@
                    == "Cargo.toml"@ {
                let k = choose|k: int|
                    0 <= k < files.len() && (#[trigger] files[k]).is_file && files[k].name@
                        == "Cargo.toml"@;
                if k < files.len() - 1 {
                    assert(rest[k] == files[k]);
                    assert(mr.contains(x));
                    let i = choose|i: int| 0 <= i < mr.len() && mr[i] == x;
                    assert(m[i] == x);
                } else {
                    assert(m[m.len() - 1] == name);
                }
            }
        }
    }
}

/// A sub-folder is reported as a Rust project exactly when it is a folder
/// holding a regular file named `Cargo.toml`, wherever that file stands in its
/// listing.
pub proof fn law_project_folders_are_those_with_a_manifest(entries: Seq<DirEntry>)
    ensures
        forall|i: int|
            0 <= i < entries.len() && entries[i].is_dir && has_manifest(#[trigger] entries[i])
                ==> project_folders(entries).contains(entries[i].name@),
        forall|x: Seq<char>|
            #[trigger] project_folders(entries).contains(x) ==> exists|i: int|
                0 <= i < entries.len() && entries[i].is_dir && has_manifest(#[trigger] entries[i])
                    && entries[i].name@ == x,
    decreases entries.len(),
{
    if entries.len() > 0 {
        let rest = entries.drop_last();
        let e = entries.last();
        law_project_folders_are_those_with_a_manifest(rest);
        lemma_manifest_marks(e.files@, e.name@);
        let pf = project_folders(entries);
        let pr = project_folders(rest);
        let tail = if e.is_dir {
            manifest_marks(e.files@, e.name@)
        } else {
            Seq::<Seq<char>>::empty()
        };
        assert(pf == pr + tail);
        assert forall|i: int|
            0 <= i < entries.len() && entries[i].is_dir && has_manifest(#[trigger] entries[i])
                implies pf.contains(entries[i].name@) by {
            if i < entries.len() - 1 {
                assert(rest[i] == entries[i]);
                assert(pr.contains(entries[i].name@));
                let m = choose|m: int| 0 <= m < pr.len() && pr[m] == entries[i].name@;
                assert(pf[m] == entries[i].name@);
            } else {
                assert(entries[i] == e);
                let k = choose|k: int|
                    0 <= k < e.files@.len() && (#[trigger] e.files@[k]).is_file
                        && e.files@[k].name@ == "Cargo.toml"@;
                assert(tail.contains(e.name@));
                let m = choose|m: int| 0 <= m < tail.len() && tail[m] == e.name@;
                assert(pf[pr.len() + m] == e.name@);
            }
        }
        assert forall|x: Seq<char>| #[trigger] pf.contains(x) implies exists|i: int|
            0 <= i < entries.len() && entries[i].is_dir && has_manifest(#[trigger] entries[i])
                && entries[i].name@ == x by {
            let m = choose|m: int| 0 <= m < pf.len() && pf[m] == x;
            if m < pr.len() {
                assert(pr[m] == x);
                assert(pr.contains(x));
                let i = choose|i: int|
                    0 <= i < rest.len() && rest[i].is_dir && has_manifest(#[trigger] rest[i])
                        && rest[i].name@ == x;
                assert(entries[i] == rest[i]);
            } else {
                assert(tail[m - pr.len()] == x);
                assert(tail.contains(x));
                assert(e.is_dir);
                let k = choose|k: int|
                    0 <= k < e.files@.len() && (#[trigger] e.files@[k]).is_file
                        && e.files@[k].name@ == "Cargo.toml"@;
                assert(has_manifest(e));
                assert(entries[entries.len() - 1] == e);
            }
        }
    }
}

/// A location's list holds exactly the names of the stored projects whose
/// `path_id` is the location's identifier, and no more names than there are
/// stored projects; a location with no stored project lists nothing.
pub proof fn law_index_lists_the_stored_projects(projects: Seq<Project>, id: Seq<char>)
    ensures
        forall|x: Seq<char>|
            #[trigger] names_under(projects, id).contains(x) <==> exists|k: int|
                0 <= k < projects.len() && (#[trigger] projects[k]).path_id@ == id
                    && projects[k].name@ == x,
        names_under(projects, id).len() <= projects.len(),
        names_under(Seq::<Project>::empty(), id) == Seq::<Seq<char>>::empty(),
    decreases projects.len(),
{
    if projects.len() > 0 {
        let rest = projects.drop_last();
        law_index_lists_the_stored_projects(rest, id);
        let nu = names_under(projects, id);
        let nr = names_under(rest, id);
        assert forall|x: Seq<char>|
            #[trigger] nu.contains(x) <==> exists|k: int|
                0 <= k < projects.len() && (#[trigger] projects[k]).path_id@ == id
                    && projects[k].name@ == x by {
            if nu.contains(x) {
                let m = choose|m: int| 0 <= m < nu.len() && nu[m] == x;
                if m < nr.len() {
                    assert(nr[m] == x);
                    assert(nr.contains(x));
                    let k = choose|k: int|
                        0 <= k < rest.len() && (#[trigger] rest[k]).path_id@ == id
                            && rest[k].name@ == x;
                    assert(projects[k] == rest[k]);
                } else {
                    assert(projects[projects.len() - 1] == projects.last());
                }
            }
            if exists|k: int|
                0 <= k < projects.len() && (#[trigger] projects[k]).path_id@ == id
                    && projects[k].name@ == x {
                let k = choose|k: int|
                    0 <= k < projects.len() && (#[trigger] projects[k]).path_id@ == id
                        && projects[k].name@ == x;
                if k < projects.len() - 1 {
                    assert(rest[k] == projects[k]);
                    assert(nr.contains(x));
                    let m = choose|m: int| 0 <= m < nr.len() && nr[m] == x;
                    assert(nu[m] == x);
                } else {
                    assert(nu[nu.len() - 1] == x);
                }
            }
        }
    }
}

/// Whether `small` stands somewhere inside `big`.
pub open spec fn occurs_in(small: Seq<char>, big: Seq<char>) -> bool {
    exists|a: int| 0 <= a && a + small.len() <= big.len() && #[trigger] big.subrange(a, a + small.len()) == small
}

proof fn lemma_occurs_between(a: Seq<char>, s: Seq<char>, b: Seq<char>)
    ensures
        occurs_in(s, a + s + b),
{
    let big = a + s + b;
    assert(big.subrange(a.len() as int, (a.len() + s.len()) as int) =~= s);
}

proof fn lemma_lines_concat(a: Seq<Seq<char>>, b: Seq<Seq<char>>)
    ensures
        project_lines(a + b) == project_lines(a) + project_lines(b),
    decreases b.len(),
{
    if b.len() == 0 {
        assert(a + b =~= a);
        assert(project_lines(a) + project_lines(b) =~= project_lines(a));
    } else {
        assert((a + b).drop_last() =~= a + b.drop_last());
        assert((a + b).last() == b.last());
        lemma_lines_concat(a, b.drop_last());
        assert(project_lines(a + b) =~= project_lines(a) + project_lines(b));
    }
}

proof fn lemma_blocks_concat(a: Seq<PathIndex>, b: Seq<PathIndex>)
    ensures
        location_blocks(a + b) == location_blocks(a) + location_blocks(b),
    decreases b.len(),
{
    if b.len() == 0 {
        assert(a + b =~= a);
        assert(location_blocks(a) + location_blocks(b) =~= location_blocks(a));
    } else {
        assert((a + b).drop_last() =~= a + b.drop_last());
        assert((a + b).last() == b.last());
        lemma_blocks_concat(a, b.drop_last());
        assert(location_blocks(a + b) =~= location_blocks(a) + location_blocks(b));
    }
}

/// The listing of a location's projects holds one line for each of them, in
/// order: the line of project `j` follows the lines of the projects before it.
pub proof fn law_location_lines(names: Seq<Seq<char>>, j: int)
    requires
        0 <= j < names.len(),
    ensures
        project_lines(names) == project_lines(names.take(j)) + ("\t- "@ + names[j] + "\n"@)
            + project_lines(names.skip(j + 1)),
{
    assert(names =~= names.take(j) + (seq![names[j]] + names.skip(j + 1)));
    lemma_lines_concat(names.take(j), seq![names[j]] + names.skip(j + 1));
    lemma_lines_concat(seq![names[j]], names.skip(j + 1));
    assert(seq![names[j]].drop_last() =~= Seq::<Seq<char>>::empty());
    assert(seq![names[j]].last() == names[j]);
    assert(project_lines(seq![names[j]].drop_last()) == Seq::<char>::empty());
    assert(Seq::<char>::empty() + "\t- "@ + names[j] + "\n"@ =~= "\t- "@ + names[j] + "\n"@);
    assert(project_lines(seq![names[j]]) =~= "\t- "@ + names[j] + "\n"@);
    assert(project_lines(names.take(j)) + (project_lines(seq![names[j]]) + project_lines(
        names.skip(j + 1),
    )) =~= project_lines(names.take(j)) + ("\t- "@ + names[j] + "\n"@) + project_lines(
        names.skip(j + 1),
    ));
}

/// Every location and every project of it appear in the listing: the line
/// with the location's path, and for each of its projects the line
/// `\t- name`.
pub proof fn law_listing_shows_everything(paths: Seq<PathIndex>, i: int, j: int)
    requires
        0 <= i < paths.len(),
        0 <= j < paths[i].projects@.len(),
    ensures
        occurs_in(paths[i].path@ + ":\n"@, listing(paths)),
        occurs_in("\t- "@ + paths[i].projects@[j]@ + "\n"@, listing(paths)),
{
    let p = paths[i];
    let names = views(p.projects@);
    assert(names[j] == p.projects@[j]@);
    law_location_lines(names, j);
    assert(paths =~= paths.take(i) + (seq![p] + paths.skip(i + 1)));
    lemma_blocks_concat(paths.take(i), seq![p] + paths.skip(i + 1));
    lemma_blocks_concat(seq![p], paths.skip(i + 1));
    assert(seq![p].drop_last() =~= Seq::<PathIndex>::empty());
    assert(seq![p].last() == p);
    assert(location_blocks(seq![p].drop_last()) == Seq::<char>::empty());
    assert(location_blocks(seq![p]) =~= location_block(p));
    let head = "Included projects:\n"@ + location_blocks(paths.take(i));
    let tail = location_blocks(paths.skip(i + 1)) + "\n"@;
    let line = "\t- "@ + names[j] + "\n"@;
    let before = project_lines(names.take(j));
    let after = project_lines(names.skip(j + 1));
    assert(listing(paths) =~= head + (p.path@ + ":\n"@) + (before + line + after + tail));
    lemma_occurs_between(head, p.path@ + ":\n"@, before + line + after + tail);
    assert(listing(paths) =~= (head + (p.path@ + ":\n"@) + before) + line + (after + tail));
    lemma_occurs_between(head + (p.path@ + ":\n"@) + before, line, after + tail);
}

} // verus!

//! What a command line asks for. The interactive loop reads a line, asks
//! `interpret` what to do, and carries it out.

use vstd::prelude::*;
use crate::text::{views, split_seq, lemma_split_nonempty, split_on, same_text, contains_char, holds_text, concat3};
use crate::index::{Index, PathIndex, qualified, qualified_names, law_every_project_is_offered};

verus! {

/// What a command line asks for.
pub enum Action {
    /// Show the help text.
    Help,
    /// Leave the program.
    Exit,
    /// Show all locations and their projects.
    List,
    /// Register the folder `path` as a location named `prefix`.
    AddLocation { path: String, prefix: String },
    /// `add-location` with fewer than two arguments; the program aborts.
    MissingArguments,
    /// Open the project folder `dir`.
    Open { project_name: String, dir: String },
    /// A known project name without a dot; the program aborts.
    MalformedProject,
    /// A known project name whose prefix names no location; the program
    /// announces the project, then aborts.
    UnknownPrefix { project_name: String },
    /// Create a new project `project_name` in folder `dir` of the location
    /// with identifier `path_id` and path `location`, then open it.
    Create { project_name: String, dir: String, path_id: String, location: String },
    /// Nothing that the program knows.
    Unknown,
}

/// The mathematical form of an `Action`.
pub enum Intent {
    Help,
    Exit,
    List,
    AddLocation { path: Seq<char>, prefix: Seq<char> },
    MissingArguments,
    Open { project_name: Seq<char>, dir: Seq<char> },
    MalformedProject,
    UnknownPrefix { project_name: Seq<char> },
    Create { project_name: Seq<char>, dir: Seq<char>, path_id: Seq<char>, location: Seq<char> },
    Unknown,
}

impl View for Action {
    type V = Intent;

    open spec fn view(&self) -> Intent {
        match self {
            Action::Help => Intent::Help,
            Action::Exit => Intent::Exit,
            Action::List => Intent::List,
            Action::AddLocation { path, prefix } => Intent::AddLocation {
                path: path@,
                prefix: prefix@,
            },
            Action::MissingArguments => Intent::MissingArguments,
            Action::Open { project_name, dir } => Intent::Open {
                project_name: project_name@,
                dir: dir@,
            },
            Action::MalformedProject => Intent::MalformedProject,
            Action::UnknownPrefix { project_name } => Intent::UnknownPrefix {
                project_name: project_name@,
            },
            Action::Create { project_name, dir, path_id, location } => Intent::Create {
                project_name: project_name@,
                dir: dir@,
                path_id: path_id@,
                location: location@,
            },
            Action::Unknown => Intent::Unknown,
        }
    }
}

/// The position of the first location named `prefix`, or the number of
/// locations when there is none.
pub open spec fn find_prefix(paths: Seq<PathIndex>, prefix: Seq<char>) -> int
    decreases paths.len(),
{
    if paths.len() == 0 {
        0
    } else {
        let k = find_prefix(paths.drop_last(), prefix);
        if k < paths.len() - 1 {
            k
        } else if paths.last().prefix@ == prefix {
            paths.len() - 1
        } else {
            paths.len() as int
        }
    }
}

/// The folder of project `name` in a location: the location's path, a
/// backslash, and the name.
pub open spec fn project_dir(location: Seq<char>, name: Seq<char>) -> Seq<char> {
    location + seq!['\\'] + name
}

/// What the command `cmd` asks for when it names a project: open it when the
/// name is known, else create it when its prefix names a location.
pub open spec fn project_intent(cmd: Seq<char>, known: Seq<Seq<char>>, paths: Seq<PathIndex>) -> Intent {
    let parts = split_seq(cmd, '.');
    if known.contains(cmd) {
        if parts.len() < 2 {
            Intent::MalformedProject
        } else {
            let k = find_prefix(paths, parts[0]);
            if k < paths.len() {
                Intent::Open { project_name: parts[1], dir: project_dir(paths[k].path@, parts[1]) }
            } else {
                Intent::UnknownPrefix { project_name: parts[1] }
            }
        }
    } else if cmd.contains('.') {
        let k = find_prefix(paths, parts[0]);
        if k < paths.len() {
            Intent::Create {
                project_name: parts[1],
                dir: project_dir(paths[k].path@, parts[1]),
                path_id: paths[k].id@,
                location: paths[k].path@,
            }
        } else {
            Intent::Unknown
        }
    } else {
        Intent::Unknown
    }
}

/// What the line asks for: its first space-separated word is the command,
/// the rest are its arguments; `known` are the qualified project names.
pub open spec fn intent_of(line: Seq<char>, known: Seq<Seq<char>>, paths: Seq<PathIndex>) -> Intent {
    let words = split_seq(line, ' ');
    let cmd = words[0];
    let args = words.drop_first();
    if cmd == "help"@ {
        Intent::Help
    } else if cmd == "exit"@ {
        Intent::Exit
    } else if cmd == "list"@ {
        Intent::List
    } else if cmd == "add-location"@ {
        if args.len() >= 2 {
            Intent::AddLocation { path: args[0], prefix: args[1] }
        } else {
            Intent::MissingArguments
        }
    } else {
        project_intent(cmd, known, paths)
    }
}

pub proof fn lemma_split_at_separator(s: Seq<char>, sep: char)
    requires
        s.contains(sep),
    ensures
        split_seq(s, sep).len() >= 2,
    decreases s.len(),
{
    lemma_split_nonempty(s.drop_last(), sep);
    if s.last() != sep {
        let k = choose|k: int| 0 <= k < s.len() && s[k] == sep;
        assert(s.drop_last()[k] == sep);
        lemma_split_at_separator(s.drop_last(), sep);
    }
}

proof fn lemma_find_prefix_settled(paths: Seq<PathIndex>, prefix: Seq<char>, j: int)
    requires
        0 <= j <= paths.len(),
        find_prefix(paths.take(j), prefix) < j,
    ensures
        find_prefix(paths, prefix) == find_prefix(paths.take(j), prefix),
    decreases paths.len() - j,
{
    if j < paths.len() {
        assert(paths.take(j + 1).drop_last() =~= paths.take(j));
        lemma_find_prefix_settled(paths, prefix, j + 1);
    } else {
        assert(paths.take(j) =~= paths);
    }
}

fn locate_prefix(paths: &Vec<PathIndex>, prefix: &String) -> (k: usize)
    ensures
        k == find_prefix(paths@, prefix@),
        k <= paths@.len(),
{
    let n = paths.len();
    let mut i: usize = 0;
    assert(paths@.take(0) =~= Seq::<PathIndex>::empty());
    while i < n
        invariant
            n == paths@.len(),
            i <= n,
            find_prefix(paths@.take(i as int), prefix@) == i,
        decreases n - i,
    {
        assert(paths@.take(i + 1).drop_last() =~= paths@.take(i as int));
        if paths[i].prefix == *prefix {
            proof {
                lemma_find_prefix_settled(paths@, prefix@, i + 1);
            }
            return i;
        }
        i = i + 1;
    }
    assert(paths@.take(n as int) =~= paths@);
    n
}

fn project_action(cmd: &String, complete_projects: &Vec<String>, projects: &Index) -> (action: Action)
    ensures
        action@ == project_intent(cmd@, views(complete_projects@), projects.paths@),
{
    let known = holds_text(complete_projects, cmd);
    if !known && !contains_char(cmd.as_str(), '.') {
        return Action::Unknown;
    }
    let parts = split_on(cmd.as_str(), '.');
    proof {
        lemma_split_nonempty(cmd@, '.');
        if cmd@.contains('.') {
            lemma_split_at_separator(cmd@, '.');
        }
        reveal_strlit("\\");
    }
    if parts.len() < 2 {
        return Action::MalformedProject;
    }
    assert(views(parts@)[0] == parts@[0]@ && views(parts@)[1] == parts@[1]@);
    let k = locate_prefix(&projects.paths, &parts[0]);
    if k == projects.paths.len() {
        return if known {
            Action::UnknownPrefix { project_name: parts[1].clone() }
        } else {
            Action::Unknown
        };
    }
    let location = &projects.paths[k];
    let dir = concat3(location.path.as_str(), "\\", parts[1].as_str());
    assert("\\"@ == seq!['\\']);
    assert(dir@ == project_dir(projects.paths@[k as int].path@, views(parts@)[1]));
    assert(find_prefix(projects.paths@, views(parts@)[0]) == k);
    if known {
        Action::Open { project_name: parts[1].clone(), dir }
    } else {
        Action::Create {
            project_name: parts[1].clone(),
            dir,
            path_id: location.id.clone(),
            location: location.path.clone(),
        }
    }
}

/// What the command line `line` asks for, given the qualified names of the
/// known projects and the index of locations.
pub fn interpret(line: &str, complete_projects: &Vec<String>, projects: &Index) -> (action: Action)
    ensures
        action@ == intent_of(line@, views(complete_projects@), projects.paths@),
{
    let words = split_on(line, ' ');
    proof {
        lemma_split_nonempty(line@, ' ');
    }
    let cmd = &words[0];
    assert(views(words@)[0] == cmd@);
    if same_text(cmd.as_str(), "help") {
        Action::Help
    } else if same_text(cmd.as_str(), "exit") {
        Action::Exit
    } else if same_text(cmd.as_str(), "list") {
        Action::List
    } else if same_text(cmd.as_str(), "add-location") {
        if words.len() >= 3 {
            assert(views(words@).drop_first()[0] == words@[1]@);
            assert(views(words@).drop_first()[1] == words@[2]@);
            Action::AddLocation { path: words[1].clone(), prefix: words[2].clone() }
        } else {
            Action::MissingArguments
        }
    } else {
        project_action(cmd, complete_projects, projects)
    }
}

// ---------------------------------------------------------------------------
// Laws

proof fn lemma_split_without_separator(s: Seq<char>, sep: char)
    requires
        !s.contains(sep),
    ensures
        split_seq(s, sep) == seq![s],
    decreases s.len(),
{
    if s.len() == 0 {
        assert(s =~= Seq::<char>::empty());
    } else {
        let r = s.drop_last();
        assert(!r.contains(sep)) by {
            if r.contains(sep) {
                let k = choose|k: int| 0 <= k < r.len() && r[k] == sep;
                assert(s[k] == sep);
            }
        }
        lemma_split_without_separator(r, sep);
        assert(s[s.len() - 1] != sep);
        assert(r.push(s.last()) =~= s);
        assert(split_seq(s, sep) =~= seq![s]);
    }
}

proof fn lemma_split_extend(x: Seq<char>, b: Seq<char>, sep: char)
    requires
        !b.contains(sep),
    ensures
        split_seq(x + b, sep) == split_seq(x, sep).update(
            split_seq(x, sep).len() - 1,
            split_seq(x, sep).last() + b,
        ),
    decreases b.len(),
{
    lemma_split_nonempty(x, sep);
    let px = split_seq(x, sep);
    if b.len() == 0 {
        assert(x + b =~= x);
        assert(px.last() + b =~= px.last());
        assert(px.update(px.len() - 1, px.last()) =~= px);
    } else {
        let r = b.drop_last();
        assert(!r.contains(sep)) by {
            if r.contains(sep) {
                let k = choose|k: int| 0 <= k < r.len() && r[k] == sep;
                assert(b[k] == sep);
            }
        }
        lemma_split_extend(x, r, sep);
        assert((x + b).drop_last() =~= x + r);
        assert((x + b).last() == b.last());
        assert(b[b.len() - 1] != sep);
        assert((px.last() + r).push(b.last()) =~= px.last() + b);
        assert(split_seq(x + b, sep) =~= px.update(px.len() - 1, px.last() + b));
    }
}

/// Splitting `a`, the separator and `b` at the separator gives back `a` and
/// `b` when neither holds the separator.
pub proof fn law_split_pair(a: Seq<char>, b: Seq<char>, sep: char)
    requires
        !a.contains(sep),
        !b.contains(sep),
    ensures
        split_seq(a + seq![sep] + b, sep) == seq![a, b],
{
    lemma_split_without_separator(a, sep);
    let x = a + seq![sep];
    assert(x.drop_last() =~= a);
    assert(x.last() == sep);
    assert(split_seq(x, sep) =~= seq![a, Seq::<char>::empty()]);
    lemma_split_extend(x, b, sep);
    assert(Seq::<char>::empty() + b =~= b);
    assert(split_seq(x + b, sep) =~= seq![a, b]);
}

proof fn lemma_no_prefix_before(paths: Seq<PathIndex>, prefix: Seq<char>, j: int)
    requires
        0 <= j <= paths.len(),
        forall|k: int| 0 <= k < j ==> paths[k].prefix@ != prefix,
    ensures
        find_prefix(paths.take(j), prefix) == j,
    decreases j,
{
    if j == 0 {
        assert(paths.take(0) =~= Seq::<PathIndex>::empty());
    } else {
        lemma_no_prefix_before(paths, prefix, j - 1);
        assert(paths.take(j).drop_last() =~= paths.take(j - 1));
        assert(paths.take(j).last() == paths[j - 1]);
    }
}

proof fn lemma_find_first_prefix(paths: Seq<PathIndex>, prefix: Seq<char>, i: int)
    requires
        0 <= i < paths.len(),
        paths[i].prefix@ == prefix,
        forall|k: int| 0 <= k < i ==> paths[k].prefix@ != prefix,
    ensures
        find_prefix(paths, prefix) == i,
{
    lemma_no_prefix_before(paths, prefix, i);
    assert(paths.take(i + 1).drop_last() =~= paths.take(i));
    assert(paths.take(i + 1).last() == paths[i]);
    lemma_find_prefix_settled(paths, prefix, i + 1);
}

proof fn lemma_qualified_line(p: Seq<char>, n: Seq<char>)
    requires
        !p.contains('.'),
        !p.contains(' '),
        !n.contains('.'),
        !n.contains(' '),
    ensures
        split_seq(p + seq!['.'] + n, ' ') == seq![p + seq!['.'] + n],
        split_seq(p + seq!['.'] + n, '.') == seq![p, n],
        (p + seq!['.'] + n) != "help"@,
        (p + seq!['.'] + n) != "exit"@,
        (p + seq!['.'] + n) != "list"@,
        (p + seq!['.'] + n) != "add-location"@,
        (p + seq!['.'] + n).contains('.'),
{
    let line = p + seq!['.'] + n;
    assert(line[p.len() as int] == '.');
    assert(!line.contains(' ')) by {
        if line.contains(' ') {
            let k = choose|k: int| 0 <= k < line.len() && line[k] == ' ';
            if k < p.len() {
                assert(p[k] == ' ');
            } else if k > p.len() {
                assert(n[k - p.len() - 1] == ' ');
            }
        }
    }
    lemma_split_without_separator(line, ' ');
    law_split_pair(p, n, '.');
    reveal_strlit("help");
    reveal_strlit("exit");
    reveal_strlit("list");
    reveal_strlit("add-location");
    assert(!"help"@.contains('.'));
    assert(!"exit"@.contains('.'));
    assert(!"list"@.contains('.'));
    assert(!"add-location"@.contains('.'));
}

/// `[prefix].[projectname]` opens a known project: for a project of a
/// location whose prefix no earlier location shares, with neither dots nor
/// spaces in prefix or name, its qualified name opens the project's folder
/// in that location.
pub proof fn law_known_project_opens(paths: Seq<PathIndex>, i: int, j: int)
    requires
        0 <= i < paths.len(),
        0 <= j < paths[i].projects@.len(),
        forall|k: int| 0 <= k < i ==> paths[k].prefix@ != paths[i].prefix@,
        !paths[i].prefix@.contains('.'),
        !paths[i].prefix@.contains(' '),
        !paths[i].projects@[j]@.contains('.'),
        !paths[i].projects@[j]@.contains(' '),
    ensures
        intent_of(
            paths[i].prefix@ + seq!['.'] + paths[i].projects@[j]@,
            qualified_names(paths),
            paths,
        ) == (Intent::Open {
            project_name: paths[i].projects@[j]@,
            dir: project_dir(paths[i].path@, paths[i].projects@[j]@),
        }),
{
    let p = paths[i].prefix@;
    let n = paths[i].projects@[j]@;
    lemma_qualified_line(p, n);
    law_every_project_is_offered(paths, i, j);
    lemma_find_first_prefix(paths, p, i);
}

/// `[prefix].[projectname]` with an unknown project name creates the project
/// in the folder of the location named by the prefix (the first such
/// location), when neither part holds a dot or a space.
pub proof fn law_unknown_project_is_created(
    known: Seq<Seq<char>>,
    paths: Seq<PathIndex>,
    i: int,
    name: Seq<char>,
)
    requires
        0 <= i < paths.len(),
        forall|k: int| 0 <= k < i ==> paths[k].prefix@ != paths[i].prefix@,
        !paths[i].prefix@.contains('.'),
        !paths[i].prefix@.contains(' '),
        !name.contains('.'),
        !name.contains(' '),
        !known.contains(paths[i].prefix@ + seq!['.'] + name),
    ensures
        intent_of(paths[i].prefix@ + seq!['.'] + name, known, paths) == (Intent::Create {
            project_name: name,
            dir: project_dir(paths[i].path@, name),
            path_id: paths[i].id@,
            location: paths[i].path@,
        }),
{
    lemma_qualified_line(paths[i].prefix@, name);
    lemma_find_first_prefix(paths, paths[i].prefix@, i);
}

/// Whether the `k`-th offered name is project `j` of location `i`, with
/// prefix and name given back by a split at the dot.
pub open spec fn offered_name_splits(paths: Seq<PathIndex>, k: int, i: int, j: int) -> bool {
    &&& 0 <= i < paths.len()
    &&& 0 <= j < paths[i].projects@.len()
    &&& qualified_names(paths)[k] == paths[i].prefix@ + seq!['.'] + paths[i].projects@[j]@
    &&& split_seq(qualified_names(paths)[k], '.') == seq![paths[i].prefix@, paths[i].projects@[j]@]
}

/// Whether the `k`-th offered name is some project of some location, given
/// back by a split at the dot.
pub open spec fn offered_name_splits_back(paths: Seq<PathIndex>, k: int) -> bool {
    exists|i: int, j: int| #[trigger] offered_name_splits(paths, k, i, j)
}

/// Every name offered for a project splits at the dot back into its
/// location's prefix and the project's name, when no prefix and no project
/// name holds a dot.
pub proof fn law_offered_names_split_back(paths: Seq<PathIndex>)
    requires
        forall|i: int| 0 <= i < paths.len() ==> !(#[trigger] paths[i].prefix@).contains('.'),
        forall|i: int, j: int|
            0 <= i < paths.len() && 0 <= j < paths[i].projects@.len() ==> !(
            #[trigger] paths[i].projects@[j]@).contains('.'),
    ensures
        forall|k: int|
            0 <= k < qualified_names(paths).len() ==> #[trigger] offered_name_splits_back(paths, k),
    decreases paths.len(),
{
    if paths.len() > 0 {
        let rest = paths.drop_last();
        let last = paths.len() - 1;
        assert forall|i: int| 0 <= i < rest.len() implies !(#[trigger] rest[i].prefix@).contains('.') by {
            assert(rest[i] == paths[i]);
        }
        assert forall|i: int, j: int|
            0 <= i < rest.len() && 0 <= j < rest[i].projects@.len() implies !(
            #[trigger] rest[i].projects@[j]@).contains('.') by {
            assert(rest[i] == paths[i]);
        }
        law_offered_names_split_back(rest);
        let qr = qualified_names(rest);
        let q = qualified_names(paths);
        assert forall|k: int| 0 <= k < q.len() implies #[trigger] offered_name_splits_back(paths, k) by {
            if k < qr.len() {
                assert(q[k] == qr[k]);
                assert(offered_name_splits_back(rest, k));
                let (i, j) = choose|i: int, j: int| #[trigger] offered_name_splits(rest, k, i, j);
                assert(rest[i] == paths[i]);
                assert(offered_name_splits(paths, k, i, j));
            } else {
                let j = k - qr.len();
                let p = paths[last];
                assert(q[k] == qualified(p)[j]);
                assert(qualified(p)[j] == p.prefix@ + seq!['.'] + p.projects@[j]@);
                assert(!p.prefix@.contains('.'));
                assert(!p.projects@[j]@.contains('.'));
                law_split_pair(p.prefix@, p.projects@[j]@, '.');
                assert(offered_name_splits(paths, k, last, j));
            }
        }
    }
}

/// Appending a separator and more text keeps every piece already split off:
/// the pieces of `x` stay the first pieces, and at least one more follows.
pub proof fn lemma_split_keeps_pieces(x: Seq<char>, r: Seq<char>, sep: char)
    ensures
        split_seq(x + seq![sep] + r, sep).len() > split_seq(x, sep).len(),
        forall|i: int|
            0 <= i < split_seq(x, sep).len() ==> #[trigger] split_seq(x + seq![sep] + r, sep)[i]
                == split_seq(x, sep)[i],
    decreases r.len(),
{
    lemma_split_nonempty(x, sep);
    let s = x + seq![sep] + r;
    if r.len() == 0 {
        assert(s =~= x.push(sep));
        assert(s.drop_last() =~= x);
    } else {
        let s0 = x + seq![sep] + r.drop_last();
        assert(s.drop_last() =~= s0);
        assert(s.last() == r.last());
        lemma_split_keeps_pieces(x, r.drop_last(), sep);
    }
}

proof fn lemma_split_push_word(x: Seq<char>, c: Seq<char>, sep: char)
    requires
        !c.contains(sep),
    ensures
        split_seq(x + seq![sep] + c, sep) == split_seq(x, sep).push(c),
{
    lemma_split_nonempty(x, sep);
    let y = x + seq![sep];
    assert(y.drop_last() =~= x);
    assert(y.last() == sep);
    lemma_split_extend(y, c, sep);
    assert(Seq::<char>::empty() + c =~= c);
    assert(split_seq(y, sep).update(split_seq(y, sep).len() - 1, split_seq(y, sep).last() + c)
        =~= split_seq(x, sep).push(c));
}

/// `add-location [path] [prefix]` registers exactly the two words typed: for
/// path and prefix words without spaces, whatever follows after a further
/// space, the line asks to add the location with that path and that prefix.
pub proof fn law_add_location_takes_the_two_words(
    path: Seq<char>,
    prefix: Seq<char>,
    rest: Seq<char>,
    known: Seq<Seq<char>>,
    paths: Seq<PathIndex>,
)
    requires
        !path.contains(' '),
        !prefix.contains(' '),
    ensures
        intent_of("add-location"@ + seq![' '] + path + seq![' '] + prefix, known, paths) == (
        Intent::AddLocation { path, prefix }),
        intent_of(
            "add-location"@ + seq![' '] + path + seq![' '] + prefix + seq![' '] + rest,
            known,
            paths,
        ) == (Intent::AddLocation { path, prefix }),
{
    reveal_strlit("add-location");
    reveal_strlit("help");
    reveal_strlit("exit");
    reveal_strlit("list");
    let cmd = "add-location"@;
    assert(!cmd.contains(' '));
    lemma_split_without_separator(cmd, ' ');
    let one = cmd + seq![' '] + path;
    lemma_split_push_word(cmd, path, ' ');
    let two = one + seq![' '] + prefix;
    lemma_split_push_word(one, prefix, ' ');
    assert(split_seq(two, ' ') =~= seq![cmd, path, prefix]);
    assert(split_seq(two, ' ').drop_first() =~= seq![path, prefix]);
    assert(cmd != "help"@ && cmd != "exit"@ && cmd != "list"@) by {
        assert(cmd.len() != "help"@.len());
        assert(cmd.len() != "exit"@.len());
        assert(cmd.len() != "list"@.len());
    }
    lemma_split_keeps_pieces(two, rest, ' ');
    let longer = two + seq![' '] + rest;
    let w = split_seq(longer, ' ');
    assert(w[0] == cmd);
    assert(w[1] == path);
    assert(w[2] == prefix);
    assert(w.drop_first()[0] == path);
    assert(w.drop_first()[1] == prefix);
}

/// A built-in command is recognized as the first word of the line, whatever
/// follows it after a space.
pub proof fn law_builtin_commands_are_recognized(
    rest: Seq<char>,
    known: Seq<Seq<char>>,
    paths: Seq<PathIndex>,
)
    ensures
        intent_of("help"@, known, paths) == Intent::Help,
        intent_of("exit"@, known, paths) == Intent::Exit,
        intent_of("list"@, known, paths) == Intent::List,
        intent_of("help"@ + seq![' '] + rest, known, paths) == Intent::Help,
        intent_of("exit"@ + seq![' '] + rest, known, paths) == Intent::Exit,
        intent_of("list"@ + seq![' '] + rest, known, paths) == Intent::List,
{
    reveal_strlit("help");
    reveal_strlit("exit");
    reveal_strlit("list");
    assert(!"help"@.contains(' '));
    assert(!"exit"@.contains(' '));
    assert(!"list"@.contains(' '));
    assert("exit"@[0] != "help"@[0]);
    assert("list"@[0] != "help"@[0] && "list"@[0] != "exit"@[0]);
    lemma_split_without_separator("help"@, ' ');
    lemma_split_without_separator("exit"@, ' ');
    lemma_split_without_separator("list"@, ' ');
    lemma_split_keeps_pieces("help"@, rest, ' ');
    lemma_split_keeps_pieces("exit"@, rest, ' ');
    lemma_split_keeps_pieces("list"@, rest, ' ');
    assert(split_seq("help"@ + seq![' '] + rest, ' ')[0] == "help"@);
    assert(split_seq("exit"@ + seq![' '] + rest, ' ')[0] == "exit"@);
    assert(split_seq("list"@ + seq![' '] + rest, ' ')[0] == "list"@);
}

} // verus!

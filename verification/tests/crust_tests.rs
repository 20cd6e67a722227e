use crust::{
    build_index, chars_from, complete, concat3, contains_char, highlight_hint, highlight_prompt,
    hint, holds_text, initialize, interpret, new_path_row, new_project_row, projects_listing,
    reconcile, rust_projects, same_text, split_on, starts_with, Action, DirEntry, FileEntry, Index,
    Path, PathIndex, Project, ScannedProject,
};

fn s(x: &str) -> String {
    x.to_string()
}

fn strings(xs: &[&str]) -> Vec<String> {
    xs.iter().map(|x| x.to_string()).collect()
}

fn location(id: &str, path: &str, prefix: &str, projects: &[&str]) -> PathIndex {
    PathIndex { id: s(id), path: s(path), prefix: s(prefix), projects: strings(projects) }
}

fn sample_index() -> Index {
    Index {
        paths: vec![
            location("id-w", "C:\\work", "w", &["alpha", "beta"]),
            location("id-p", "C:\\play", "p", &["gamma"]),
        ],
    }
}

fn is_v4_text(id: &str) -> bool {
    let cs: Vec<char> = id.chars().collect();
    cs.len() == 36
        && cs.iter().enumerate().all(|(i, c)| {
            if i == 8 || i == 13 || i == 18 || i == 23 {
                *c == '-'
            } else {
                c.is_ascii_digit() || ('a'..='f').contains(c)
            }
        })
        && cs[14] == '4'
        && "89ab".contains(cs[19])
}

// ----- text -----

#[test]
fn split_on_separates_every_occurrence() {
    assert_eq!(split_on("add-location C:\\x w", ' '), strings(&["add-location", "C:\\x", "w"]));
    assert_eq!(split_on("", ' '), strings(&[""]));
    assert_eq!(split_on("a  b", ' '), strings(&["a", "", "b"]));
    assert_eq!(split_on("a ", ' '), strings(&["a", ""]));
    assert_eq!(split_on("w.alpha.x", '.'), strings(&["w", "alpha", "x"]));
}

#[test]
fn text_predicates() {
    assert!(starts_with("add-location", "add"));
    assert!(starts_with("help", ""));
    assert!(!starts_with("he", "help"));
    assert!(!starts_with("list", "lx"));
    assert!(contains_char("w.alpha", '.'));
    assert!(!contains_char("help", '.'));
    assert!(same_text("exit", "exit"));
    assert!(!same_text("exit", "exits"));
    assert!(!same_text("exit", "exiT"));
    assert!(holds_text(&strings(&["a", "b"]), &s("b")));
    assert!(!holds_text(&strings(&["a", "b"]), &s("c")));
}

#[test]
fn text_builders() {
    assert_eq!(chars_from("add-location", 3), s("-location"));
    assert_eq!(chars_from("héllo", 2), s("llo"));
    assert_eq!(chars_from("abc", 3), s(""));
    assert_eq!(concat3("C:\\work", "\\", "alpha"), s("C:\\work\\alpha"));
}

// ----- models -----

#[test]
fn new_rows_carry_their_fields_and_a_random_uuid() {
    let row = new_path_row("C:\\work", "w");
    assert_eq!(row.path, "C:\\work");
    assert_eq!(row.prefix, "w");
    assert!(is_v4_text(&row.id), "{}", row.id);
    let project = new_project_row("alpha", &row.id);
    assert_eq!(project.name, "alpha");
    assert_eq!(project.path_id, row.id);
    assert!(is_v4_text(&project.id), "{}", project.id);
    assert_ne!(project.id, row.id);
    assert_ne!(new_path_row("C:\\work", "w").id, row.id);
}

#[test]
fn rows_give_their_insertable_form() {
    let row = Path { id: s("1"), path: s("C:\\work"), prefix: s("w") };
    let new = row.as_new();
    assert_eq!((new.id, new.path, new.prefix), ("1", "C:\\work", "w"));
    let project = Project { id: s("2"), name: s("alpha"), path_id: s("1") };
    let new = project.as_new();
    assert_eq!((new.id, new.name, new.path_id), ("2", "alpha", "1"));
}

// ----- index -----

#[test]
fn build_index_groups_projects_by_location() {
    let paths = vec![
        Path { id: s("1"), path: s("C:\\work"), prefix: s("w") },
        Path { id: s("2"), path: s("C:\\play"), prefix: s("p") },
        Path { id: s("3"), path: s("C:\\empty"), prefix: s("e") },
    ];
    let projects = vec![
        Project { id: s("a"), name: s("alpha"), path_id: s("1") },
        Project { id: s("b"), name: s("gamma"), path_id: s("2") },
        Project { id: s("c"), name: s("beta"), path_id: s("1") },
        Project { id: s("d"), name: s("orphan"), path_id: s("9") },
    ];
    let index = build_index(&paths, &projects);
    assert_eq!(index.paths.len(), 3);
    assert_eq!(index.paths[0].id, "1");
    assert_eq!(index.paths[0].path, "C:\\work");
    assert_eq!(index.paths[0].prefix, "w");
    assert_eq!(index.paths[0].projects, strings(&["alpha", "beta"]));
    assert_eq!(index.paths[1].projects, strings(&["gamma"]));
    assert!(index.paths[2].projects.is_empty());
}

#[test]
fn initialize_lists_builtins_then_qualified_names() {
    let (complete_projects, commands) = initialize(&sample_index());
    assert_eq!(complete_projects, strings(&["w.alpha", "w.beta", "p.gamma"]));
    assert_eq!(
        commands,
        strings(&["help", "exit", "add-location", "list", "w.alpha", "w.beta", "p.gamma"])
    );
    let (none, builtins) = initialize(&Index { paths: vec![] });
    assert!(none.is_empty());
    assert_eq!(builtins, strings(&["help", "exit", "add-location", "list"]));
}

#[test]
fn law_every_project_is_offered_on_sample() {
    let index = sample_index();
    let (complete_projects, _) = initialize(&index);
    for p in &index.paths {
        for n in &p.projects {
            assert!(complete_projects.contains(&format!("{}.{}", p.prefix, n)));
        }
    }
}

#[test]
fn listing_of_an_empty_index_is_the_notice() {
    assert_eq!(
        projects_listing(&Index { paths: vec![] }),
        "No projects registered yet!\nTry 'add-location [path] [prefix]' to add a directory with projects!\n\n"
    );
}

#[test]
fn listing_shows_every_location_and_project() {
    assert_eq!(
        projects_listing(&sample_index()),
        "Included projects:\nC:\\work:\n\t- alpha\n\t- beta\nC:\\play:\n\t- gamma\n\n"
    );
    let index = Index { paths: vec![location("1", "C:\\none", "n", &[])] };
    assert_eq!(projects_listing(&index), "Included projects:\nC:\\none:\n\n");
}

fn file(name: &str, is_file: bool) -> FileEntry {
    FileEntry { name: s(name), is_file }
}

#[test]
fn rust_projects_are_folders_with_a_manifest() {
    let entries = vec![
        DirEntry { name: s("alpha"), is_dir: true, files: vec![file("src", false), file("Cargo.toml", true)] },
        DirEntry { name: s("notes"), is_dir: true, files: vec![file("readme.md", true)] },
        DirEntry { name: s("Cargo.toml"), is_dir: false, files: vec![] },
        DirEntry { name: s("odd"), is_dir: true, files: vec![file("Cargo.toml", false)] },
        DirEntry { name: s("beta"), is_dir: true, files: vec![file("Cargo.toml", true)] },
        DirEntry { name: s("case"), is_dir: true, files: vec![file("cargo.toml", true)] },
    ];
    assert_eq!(rust_projects(&entries), strings(&["alpha", "beta"]));
    assert!(rust_projects(&vec![]).is_empty());
}

fn scanned(name: &str, indexed: bool) -> ScannedProject {
    ScannedProject { name: s(name), indexed }
}

#[test]
fn reconcile_appends_new_projects_when_nothing_is_stale() {
    let r = reconcile(
        &strings(&["alpha"]),
        &vec![scanned("alpha", true), scanned("beta", false), scanned("gamma", false)],
    );
    assert_eq!(r.created, strings(&["beta", "gamma"]));
    assert!(r.stale.is_empty());
    assert_eq!(r.projects, strings(&["alpha", "beta", "gamma"]));
}

#[test]
fn reconcile_stores_a_new_project_once() {
    let r = reconcile(&vec![], &vec![scanned("beta", false), scanned("beta", false)]);
    assert_eq!(r.created, strings(&["beta"]));
    assert_eq!(r.projects, strings(&["beta"]));
}

#[test]
fn reconcile_removes_a_single_stale_project() {
    let r = reconcile(&strings(&["alpha", "gone", "beta"]), &vec![scanned("alpha", true), scanned("beta", true)]);
    assert!(r.created.is_empty());
    assert_eq!(r.stale, strings(&["gone"]));
    assert_eq!(r.projects, strings(&["alpha", "beta"]));
}

#[test]
fn reconcile_keeps_only_what_is_on_disk() {
    let r = reconcile(&strings(&["a", "b", "c"]), &vec![scanned("c", true)]);
    assert_eq!(r.stale, strings(&["a", "b"]));
    assert_eq!(r.projects, strings(&["c"]));
}

#[test]
fn reconcile_of_an_empty_location_keeps_nothing() {
    let r = reconcile(&strings(&["a", "b"]), &vec![]);
    assert_eq!(r.stale, strings(&["a", "b"]));
    assert!(r.projects.is_empty());
    assert!(r.created.is_empty());
}

#[test]
fn reconcile_mixes_new_and_stale_projects() {
    let r = reconcile(
        &strings(&["a", "b", "c", "d"]),
        &vec![scanned("d", true), scanned("e", false), scanned("b", true)],
    );
    assert_eq!(r.created, strings(&["e"]));
    assert_eq!(r.stale, strings(&["a", "c"]));
    assert_eq!(r.projects, strings(&["b", "d", "e"]));
}

#[test]
fn reconcile_twice_changes_nothing() {
    let first = reconcile(&strings(&["a", "b", "c"]), &vec![scanned("c", true), scanned("x", false)]);
    let again: Vec<ScannedProject> = vec![scanned("c", true), scanned("x", true)];
    let second = reconcile(&first.projects, &again);
    assert!(second.created.is_empty());
    assert!(second.stale.is_empty());
    assert_eq!(second.projects, first.projects);
}

#[test]
fn reload_after_an_update_changes_nothing() {
    // the store's names for one location, and what is on disk
    let stored = strings(&["a", "b", "c"]);
    let on_disk = ["c", "x"];
    let found: Vec<ScannedProject> = on_disk.iter().map(|n| scanned(n, stored.contains(&s(n)))).collect();
    let first = reconcile(&stored, &found);
    // write the update to the store: delete the stale names, append the new ones
    let mut store: Vec<String> = stored.iter().filter(|n| !first.stale.contains(n)).cloned().collect();
    store.extend(first.created.iter().cloned());
    assert_eq!(store, first.projects);
    // reload and update again
    let again: Vec<ScannedProject> = on_disk.iter().map(|n| scanned(n, store.contains(&s(n)))).collect();
    let second = reconcile(&store, &again);
    assert!(second.created.is_empty());
    assert!(second.stale.is_empty());
    assert_eq!(second.projects, store);
}

#[test]
fn offered_names_split_back_into_prefix_and_name() {
    let index = sample_index();
    let (known, _) = initialize(&index);
    let pairs = [("w", "alpha"), ("w", "beta"), ("p", "gamma")];
    for (k, name) in known.iter().enumerate() {
        assert_eq!(split_on(name, '.'), strings(&[pairs[k].0, pairs[k].1]));
    }
}

// ----- completion -----

#[test]
fn complete_lists_the_rest_of_every_matching_command() {
    let commands = strings(&["help", "exit", "add-location", "list", "w.alpha", "w.beta"]);
    assert_eq!(complete(&commands, "w.", 2), (2, strings(&["alpha", "beta"])));
    assert_eq!(complete(&commands, "l", 1), (1, strings(&["ist"])));
    assert_eq!(complete(&commands, "x", 1), (1, vec![]));
    assert_eq!(complete(&commands, "", 0).1, commands);
}

#[test]
fn hint_is_the_first_completion() {
    let commands = strings(&["help", "exit", "add-location", "list", "w.alpha", "w.beta"]);
    assert_eq!(hint(&commands, "w.", 2), Some(s("alpha")));
    assert_eq!(hint(&commands, "w.", 2).unwrap(), complete(&commands, "w.", 2).1[0]);
    assert_eq!(hint(&commands, "ad", 2), Some(s("d-location")));
    assert_eq!(hint(&commands, "help", 4), Some(s("")));
    assert_eq!(hint(&commands, "x", 1), None);
}

#[test]
fn hint_is_withheld_on_an_empty_line_or_inside_it() {
    let commands = strings(&["help"]);
    assert_eq!(hint(&commands, "", 0), None);
    assert_eq!(hint(&commands, "he", 1), None);
    assert_eq!(hint(&commands, "he", 3), Some(s("lp")));
}

#[test]
fn highlighting_wraps_in_escape_sequences() {
    assert_eq!(highlight_prompt("> ", true), Some(s("\x1b[1;32m> \x1b[0m")));
    assert_eq!(highlight_prompt("> ", false), None);
    assert_eq!(highlight_hint("lp"), "\x1b[2mlp\x1b[0m");
}

// ----- command -----

#[test]
fn builtin_commands_are_recognized() {
    let index = sample_index();
    let (known, _) = initialize(&index);
    assert!(matches!(interpret("help", &known, &index), Action::Help));
    assert!(matches!(interpret("exit", &known, &index), Action::Exit));
    assert!(matches!(interpret("list", &known, &index), Action::List));
    assert!(matches!(interpret("list extra", &known, &index), Action::List));
    assert!(matches!(interpret("", &known, &index), Action::Unknown));
    assert!(matches!(interpret("hello", &known, &index), Action::Unknown));
    assert!(matches!(interpret(" help", &known, &index), Action::Unknown));
}

#[test]
fn add_location_takes_path_and_prefix() {
    let index = sample_index();
    let (known, _) = initialize(&index);
    match interpret("add-location C:\\new n", &known, &index) {
        Action::AddLocation { path, prefix } => {
            assert_eq!(path, "C:\\new");
            assert_eq!(prefix, "n");
        }
        _ => panic!("expected add-location"),
    }
    assert!(matches!(interpret("add-location C:\\new", &known, &index), Action::MissingArguments));
    assert!(matches!(interpret("add-location", &known, &index), Action::MissingArguments));
}

#[test]
fn known_project_opens_its_folder() {
    let index = sample_index();
    let (known, _) = initialize(&index);
    match interpret("p.gamma", &known, &index) {
        Action::Open { project_name, dir } => {
            assert_eq!(project_name, "gamma");
            assert_eq!(dir, "C:\\play\\gamma");
        }
        _ => panic!("expected open"),
    }
}

#[test]
fn unknown_project_with_known_prefix_is_created() {
    let index = sample_index();
    let (known, _) = initialize(&index);
    match interpret("w.delta", &known, &index) {
        Action::Create { project_name, dir, path_id, location } => {
            assert_eq!(project_name, "delta");
            assert_eq!(dir, "C:\\work\\delta");
            assert_eq!(path_id, "id-w");
            assert_eq!(location, "C:\\work");
        }
        _ => panic!("expected create"),
    }
    assert!(matches!(interpret("z.delta", &known, &index), Action::Unknown));
}

#[test]
fn known_names_that_cannot_be_resolved_abort() {
    let index = sample_index();
    let known = strings(&["nodot", "q.x"]);
    assert!(matches!(interpret("nodot", &known, &index), Action::MalformedProject));
    match interpret("q.x", &known, &index) {
        Action::UnknownPrefix { project_name } => assert_eq!(project_name, "x"),
        _ => panic!("expected an unknown prefix"),
    }
}

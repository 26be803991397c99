use snowlink::codec::{decode_registry, encode_registry};
use snowlink::linker::{
    check_unlink, classify_identity, link_entries, plan_entry, select_packages, wants_all,
    Action, IdentityOutcome, LevelEntry, TargetState, UnlinkError,
};
use snowlink::pathutil::{common_prefix, get_symlink_real_path, join_path, relative, PathError};
use snowlink::registry::{LinkRecord, LinkRegistry};
use snowlink::{is_absolute, str_eq};

#[test]
fn relative_shared_ancestor() {
    // package root /r/pkgs/vim linked into target /r/home/u: two levels
    // between the link's parent and the common ancestor /r
    let r = relative("/r/pkgs/vim/.vimrc", "/r/home/u/.vimrc").unwrap();
    assert_eq!(r, "../../pkgs/vim/.vimrc");
}

#[test]
fn relative_no_shared_ancestor_returns_origin() {
    let r = relative("/pkgs/vim/.vimrc", "/home/u/.vimrc").unwrap();
    assert_eq!(r, "/pkgs/vim/.vimrc");
}

#[test]
fn relative_same_directory() {
    let r = relative("/a/b/x", "/a/b/y").unwrap();
    assert_eq!(r, "x");
}

#[test]
fn relative_one_level_up() {
    let r = relative("/a/x", "/a/b/y").unwrap();
    assert_eq!(r, "../x");
}

#[test]
fn relative_rejects_non_absolute() {
    assert_eq!(relative("a/b", "/c/d"), Err(PathError::InvalidInput));
    assert_eq!(relative("/a/b", "c/d"), Err(PathError::InvalidInput));
    assert_eq!(relative("", "/c/d"), Err(PathError::InvalidInput));
}

#[test]
fn common_prefix_shared_segments() {
    let p = common_prefix("/r/pkgs/vim", "/r/pkgs/emacs");
    assert_eq!(p, vec!["r".to_string(), "pkgs".to_string()]);
}

#[test]
fn common_prefix_root_only() {
    let p = common_prefix("/pkgs/vim", "/home/u");
    assert!(p.is_empty());
}

#[test]
fn absolute_detection() {
    assert!(is_absolute("/a"));
    assert!(!is_absolute("a/b"));
    assert!(!is_absolute(""));
    assert!(str_eq("abc", "abc"));
    assert!(!str_eq("abc", "abd"));
}

#[test]
fn symlink_real_path_relative_dest() {
    let r = get_symlink_real_path("/home/u/.vimrc", "../../pkgs/vim/.vimrc");
    assert_eq!(r, "/home/u/../../pkgs/vim/.vimrc");
}

#[test]
fn symlink_real_path_absolute_dest() {
    let r = get_symlink_real_path("/home/u/.vimrc", "/pkgs/vim/.vimrc");
    assert_eq!(r, "/pkgs/vim/.vimrc");
}

#[test]
fn symlink_real_path_under_root() {
    let r = get_symlink_real_path("/link", "target");
    assert_eq!(r, "/target");
}

#[test]
fn registry_add_find_remove() {
    let mut reg = LinkRegistry::new();
    reg.add_package("vim", "/pkgs/vim/.vimrc", "/home/u/.vimrc");
    reg.add_package("vim", "/pkgs/vim/colors", "/home/u/colors");
    reg.add_package("zsh", "/pkgs/zsh/.zshrc", "/home/u/.zshrc");
    assert_eq!(reg.len(), 3);

    let found = reg.find_package("vim").unwrap();
    assert_eq!(found.package, "vim");
    assert_eq!(found.origin, "/pkgs/vim/.vimrc");
    assert_eq!(found.symlink, "/home/u/.vimrc");
    assert!(reg.find_package("emacs").is_none());

    reg.remove_package("vim");
    assert_eq!(reg.len(), 1);
    assert!(reg.find_package("vim").is_none());
    assert_eq!(reg.list_records()[0].package, "zsh");
}

#[test]
fn registry_example_record() {
    let mut reg = LinkRegistry::new();
    reg.add_package("vim", "/pkgs/vim/.vimrc", "/home/u/.vimrc");
    let rec = reg.find_package("vim").unwrap();
    assert_eq!(rec.package, "vim");
    assert_eq!(rec.origin, "/pkgs/vim/.vimrc");
    assert_eq!(rec.symlink, "/home/u/.vimrc");
}

#[test]
fn registry_add_replaces_same_symlink() {
    let mut reg = LinkRegistry::new();
    reg.add_package("vim", "/pkgs/vim/.vimrc", "/home/u/.vimrc");
    reg.add_package("neovim", "/pkgs/neovim/.vimrc", "/home/u/.vimrc");
    assert_eq!(reg.len(), 1);
    let rec = reg.find_package("neovim").unwrap();
    assert_eq!(rec.origin, "/pkgs/neovim/.vimrc");
}

#[test]
fn records_for_package_lists_all_its_links() {
    let mut reg = LinkRegistry::new();
    reg.add_package("vim", "/p/vim/a", "/t/a");
    reg.add_package("zsh", "/p/zsh/b", "/t/b");
    reg.add_package("vim", "/p/vim/c", "/t/c");
    let records = reg.records_for_package("vim");
    assert_eq!(records.len(), 2);
    assert_eq!(records[0].origin, "/p/vim/a");
    assert_eq!(records[1].origin, "/p/vim/c");
    assert!(reg.records_for_package("emacs").is_empty());
}

#[test]
fn prune_plan_lists_every_symlink() {
    let mut reg = LinkRegistry::new();
    reg.add_package("vim", "/p/vim/a", "/t/a");
    reg.add_package("zsh", "/p/zsh/b", "/t/b");
    let plan = reg.prune_plan();
    assert_eq!(plan, vec!["/t/a".to_string(), "/t/b".to_string()]);
}

#[test]
fn codec_round_trip() {
    let mut reg = LinkRegistry::new();
    reg.add_package("vim", "/pkgs/vim/.vimrc", "/home/u/.vimrc");
    reg.add_package("zsh", "/pkgs/zsh/.zshrc", "/home/u/.zshrc");
    let text = encode_registry(&reg);
    let back = decode_registry(&text).unwrap();
    let records = back.list_records();
    assert_eq!(records.len(), 2);
    assert_eq!(records[0].package, "vim");
    assert_eq!(records[0].origin, "/pkgs/vim/.vimrc");
    assert_eq!(records[0].symlink, "/home/u/.vimrc");
    assert_eq!(records[1].package, "zsh");
}

#[test]
fn codec_round_trip_awkward_characters() {
    let mut reg = LinkRegistry::new();
    reg.add_package("odd", "/p/with\ttab", "/t/with\nnewline");
    reg.add_package("odd2", "/p/with\\backslash", "/t/plain");
    let text = encode_registry(&reg);
    let back = decode_registry(&text).unwrap();
    let records = back.list_records();
    assert_eq!(records[0].origin, "/p/with\ttab");
    assert_eq!(records[0].symlink, "/t/with\nnewline");
    assert_eq!(records[1].origin, "/p/with\\backslash");
}

#[test]
fn codec_empty_file_is_empty_registry() {
    let back = decode_registry("").unwrap();
    assert_eq!(back.len(), 0);
    let reg = LinkRegistry::new();
    assert_eq!(encode_registry(&reg), "");
}

#[test]
fn codec_rejects_corrupt_text() {
    assert!(decode_registry("no trailing newline").is_none());
    assert!(decode_registry("only\ttwo\n").is_none());
    assert!(decode_registry("one\ttoo\tmany\tfields\n").is_none());
    assert!(decode_registry("bad\\q\tescape\there\n").is_none());
    assert!(decode_registry("dangling\tescape\tat-end\\\n").is_none());
}

#[test]
fn plan_directory_entries() {
    let dest = TargetState::Symlink { dest: "../x".to_string() };
    assert_eq!(plan_entry(true, &TargetState::Absent, false), Action::Create);
    assert_eq!(plan_entry(true, &dest, false), Action::Skip);
    assert_eq!(plan_entry(true, &dest, true), Action::Replace);
    assert_eq!(plan_entry(true, &TargetState::RealDir, false), Action::Recurse);
    assert_eq!(plan_entry(true, &TargetState::RealDir, true), Action::Recurse);
    assert_eq!(plan_entry(true, &TargetState::Other, false), Action::Skip);
}

#[test]
fn plan_file_entries() {
    let dest = TargetState::Symlink { dest: "../x".to_string() };
    assert_eq!(plan_entry(false, &TargetState::Absent, false), Action::Create);
    assert_eq!(plan_entry(false, &TargetState::Other, false), Action::Skip);
    assert_eq!(plan_entry(false, &TargetState::Other, true), Action::Replace);
    assert_eq!(plan_entry(false, &dest, true), Action::Replace);
}

#[test]
fn second_pass_without_force_skips() {
    // after a link is created, a repeated pass sees a symlink and skips
    assert_eq!(plan_entry(true, &TargetState::Absent, false), Action::Create);
    let after = TargetState::Symlink { dest: "../../pkgs/vim/.vimrc".to_string() };
    assert_eq!(plan_entry(true, &after, false), Action::Skip);
    assert_eq!(plan_entry(false, &after, false), Action::Skip);
}

#[test]
fn forced_pass_replaces_with_same_destination() {
    let dest = relative("/r/pkgs/vim/.vimrc", "/r/home/u/.vimrc").unwrap();
    let st = TargetState::Symlink { dest: dest.clone() };
    assert_eq!(plan_entry(false, &st, true), Action::Replace);
    // recomputing the destination for the same origin and link yields
    // the same on-disk target, so the end state is unchanged
    let dest2 = relative("/r/pkgs/vim/.vimrc", "/r/home/u/.vimrc").unwrap();
    assert_eq!(dest, dest2);
}

#[test]
fn identity_classification() {
    assert_eq!(
        classify_identity(Some((1, 2)), Some((1, 2))),
        IdentityOutcome::Match
    );
    assert_eq!(
        classify_identity(Some((1, 2)), Some((1, 3))),
        IdentityOutcome::Mismatch
    );
    assert_eq!(
        classify_identity(Some((1, 2)), Some((9, 2))),
        IdentityOutcome::Mismatch
    );
    assert_eq!(classify_identity(None, Some((1, 2))), IdentityOutcome::Unknown);
    assert_eq!(classify_identity(Some((1, 2)), None), IdentityOutcome::Unknown);
}

#[test]
fn unlink_refuses_repointed_link() {
    // the recorded symlink now resolves to a different file: blocked
    assert_eq!(
        check_unlink(false, IdentityOutcome::Mismatch),
        Err(UnlinkError::IdentityMismatch)
    );
}

#[test]
fn unlink_decisions() {
    assert_eq!(check_unlink(false, IdentityOutcome::Match), Ok(()));
    assert_eq!(check_unlink(false, IdentityOutcome::Unknown), Ok(()));
    assert_eq!(check_unlink(true, IdentityOutcome::Mismatch), Ok(()));
    assert_eq!(check_unlink(true, IdentityOutcome::Match), Ok(()));
}

#[test]
fn package_selection() {
    let entries = vec![
        ("vim".to_string(), true),
        ("notes.txt".to_string(), false),
        ("*reserved".to_string(), true),
        ("zsh".to_string(), true),
    ];
    let picked = select_packages(&entries);
    assert_eq!(picked, vec!["vim".to_string(), "zsh".to_string()]);
}

#[test]
fn wildcard_detection() {
    let with = vec!["vim".to_string(), "*".to_string()];
    let without = vec!["vim".to_string(), "zsh".to_string()];
    let empty: Vec<String> = vec![];
    assert!(wants_all(&with));
    assert!(!wants_all(&without));
    assert!(!wants_all(&empty));
}

#[test]
fn join_path_appends_name() {
    assert_eq!(join_path("/r/pkgs/vim", ".vimrc"), "/r/pkgs/vim/.vimrc");
}

#[test]
fn level_walk_plans_links_and_records() {
    let entries = vec![
        LevelEntry {
            name: ".vimrc".to_string(),
            is_dir: false,
            state: TargetState::Absent,
        },
        LevelEntry {
            name: "colors".to_string(),
            is_dir: true,
            state: TargetState::RealDir,
        },
        LevelEntry {
            name: ".vim".to_string(),
            is_dir: true,
            state: TargetState::Symlink { dest: "old".to_string() },
        },
    ];
    let planned = link_entries("vim", "/r/pkgs/vim", "/r/home/u", &entries, false);
    assert_eq!(planned.len(), 3);

    assert_eq!(planned[0].action, Action::Create);
    assert_eq!(planned[0].dest.as_deref(), Some("../../pkgs/vim/.vimrc"));
    let record = planned[0].record.as_ref().unwrap();
    assert_eq!(record.package, "vim");
    assert_eq!(record.origin, "/r/pkgs/vim/.vimrc");
    assert_eq!(record.symlink, "/r/home/u/.vimrc");

    assert_eq!(planned[1].action, Action::Recurse);
    assert!(planned[1].dest.is_none());
    assert!(planned[1].record.is_none());

    assert_eq!(planned[2].action, Action::Skip);
    assert!(planned[2].record.is_none());
}

#[test]
fn level_walk_second_pass_plans_nothing() {
    let entries = vec![LevelEntry {
        name: ".vimrc".to_string(),
        is_dir: false,
        state: TargetState::Absent,
    }];
    let first = link_entries("vim", "/r/pkgs/vim", "/r/home/u", &entries, false);
    assert_eq!(first[0].action, Action::Create);
    let dest = first[0].dest.clone().unwrap();

    let after = vec![LevelEntry {
        name: ".vimrc".to_string(),
        is_dir: false,
        state: TargetState::Symlink { dest },
    }];
    let second = link_entries("vim", "/r/pkgs/vim", "/r/home/u", &after, false);
    assert_eq!(second[0].action, Action::Skip);
    assert!(second[0].record.is_none());
}

#[test]
fn level_walk_forced_replaces_existing_link() {
    let entries = vec![LevelEntry {
        name: ".vimrc".to_string(),
        is_dir: false,
        state: TargetState::Symlink { dest: "elsewhere".to_string() },
    }];
    let planned = link_entries("vim", "/r/pkgs/vim", "/r/home/u", &entries, true);
    assert_eq!(planned[0].action, Action::Replace);
    assert_eq!(planned[0].dest.as_deref(), Some("../../pkgs/vim/.vimrc"));
}

#[test]
fn make_record_parts() {
    let rec = LinkRecord::new("vim", "/pkgs/vim/.vimrc", "/home/u/.vimrc");
    assert_eq!(rec.package, "vim");
    assert_eq!(rec.origin, "/pkgs/vim/.vimrc");
    assert_eq!(rec.symlink, "/home/u/.vimrc");
    let copy = rec.duplicate();
    assert_eq!(copy.package, rec.package);
    assert_eq!(copy.origin, rec.origin);
    assert_eq!(copy.symlink, rec.symlink);
}

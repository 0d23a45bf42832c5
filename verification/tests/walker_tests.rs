use parblock::errors::XcpError;
use parblock::walker::{
    entry_action, entry_target, guard_target, relative_to, source_name, target_base, CopyOp,
    FileType, WalkAction,
};

const MIB: u64 = 1024 * 1024;

fn path(parts: &[&str]) -> Vec<Vec<u8>> {
    parts.iter().map(|p| p.as_bytes().to_vec()).collect()
}

#[test]
fn source_name_is_the_last_component() {
    assert_eq!(source_name(&path(&["/", "home", "user", "a"])), Ok(b"a".to_vec()));
    assert_eq!(source_name(&path(&["a"])), Ok(b"a".to_vec()));
}

#[test]
fn a_source_without_components_is_invalid() {
    let r = source_name(&path(&[]));
    assert_eq!(
        r,
        Err(XcpError::InvalidSource("Failed to find source directory name.".to_string()))
    );
}

#[test]
fn an_existing_directory_takes_the_source_under_its_name() {
    assert_eq!(
        target_base(&path(&["dst"]), &path(&["src", "a"]), true),
        Ok(path(&["dst", "a"]))
    );
}

#[test]
fn a_missing_destination_becomes_the_root() {
    assert_eq!(
        target_base(&path(&["dst"]), &path(&["src", "a"]), false),
        Ok(path(&["dst"]))
    );
}

#[test]
fn target_base_needs_a_source_name() {
    for dest_is_dir in [true, false] {
        assert!(matches!(
            target_base(&path(&["dst"]), &path(&[]), dest_is_dir),
            Err(XcpError::InvalidSource(_))
        ));
    }
}

#[test]
fn relative_to_takes_the_source_off_the_front() {
    assert_eq!(
        relative_to(&path(&["src", "a", "sub", "y"]), &path(&["src", "a"])),
        Some(path(&["sub", "y"]))
    );
    assert_eq!(relative_to(&path(&["src", "a"]), &path(&["src", "a"])), Some(path(&[])));
    assert_eq!(relative_to(&path(&["x"]), &path(&[])), Some(path(&["x"])));
}

#[test]
fn relative_to_refuses_a_path_outside_the_source() {
    assert_eq!(relative_to(&path(&["src", "b", "y"]), &path(&["src", "a"])), None);
    assert_eq!(relative_to(&path(&["src"]), &path(&["src", "a"])), None);
    assert_eq!(relative_to(&path(&["src", "ab"]), &path(&["src", "a"])), None);
}

#[test]
fn entry_target_joins_root_and_relative_path() {
    assert_eq!(
        entry_target(&path(&["dst", "a"]), &path(&["sub", "y"])),
        path(&["dst", "a", "sub", "y"])
    );
}

#[test]
fn the_source_root_lands_on_the_target_root() {
    assert_eq!(entry_target(&path(&["dst", "a"]), &path(&[])), path(&["dst", "a"]));
}

#[test]
fn mirroring_keeps_the_relative_path() {
    let root = path(&["dst", "a"]);
    for rel in [path(&[]), path(&["x"]), path(&["sub", "deep", "y"])] {
        let target = entry_target(&root, &rel);
        assert_eq!(relative_to(&target, &root), Some(rel));
    }
}

#[test]
fn a_regular_file_is_enqueued_with_its_length() {
    let from = path(&["src", "a", "x"]);
    let target = path(&["dst", "a", "x"]);
    assert_eq!(
        entry_action(FileType::File, from.clone(), target.clone(), 100, false, false),
        Ok(WalkAction::Enqueue { op: CopyOp { from, target }, grow: 100 })
    );
}

#[test]
fn a_directory_is_created() {
    let from = path(&["src", "a"]);
    let target = path(&["dst", "a"]);
    assert_eq!(
        entry_action(FileType::Dir, from, target.clone(), 4096, false, true),
        Ok(WalkAction::CreateDir { target })
    );
}

#[test]
fn a_symlink_is_copied_as_a_link() {
    let from = path(&["src", "a", "link"]);
    let target = path(&["dst", "a", "link"]);
    assert_eq!(
        entry_action(FileType::Symlink, from.clone(), target.clone(), 1, false, false),
        Ok(WalkAction::CopyLink { from, target })
    );
}

#[test]
fn special_files_are_replicated_as_nodes() {
    for kind in [FileType::Socket, FileType::Fifo, FileType::Char, FileType::Block] {
        let from = path(&["dev", "node"]);
        let target = path(&["dst", "node"]);
        assert_eq!(
            entry_action(kind, from.clone(), target.clone(), 0, true, false),
            Ok(WalkAction::CopyNode { from, target })
        );
    }
}

#[test]
fn an_unknown_file_type_fails_the_walk() {
    let target = path(&["dst", "odd"]);
    assert_eq!(
        entry_action(FileType::Other, path(&["src", "odd"]), target.clone(), 0, false, false),
        Err(XcpError::UnknownFileType(target))
    );
}

#[test]
fn no_clobber_refuses_an_existing_target() {
    for kind in [FileType::File, FileType::Dir, FileType::Symlink, FileType::Fifo, FileType::Other]
    {
        let target = path(&["dst"]);
        let r = entry_action(kind, path(&["src"]), target.clone(), 13, true, true);
        assert_eq!(r, Err(XcpError::DestinationExists(target)));
        assert!(r.unwrap_err().message().contains("Destination file exists"));
    }
}

#[test]
fn no_clobber_lets_a_new_target_through() {
    let from = path(&["src"]);
    let target = path(&["dst"]);
    assert_eq!(
        entry_action(FileType::File, from.clone(), target.clone(), 13, true, false),
        Ok(WalkAction::Enqueue { op: CopyOp { from, target }, grow: 13 })
    );
}

#[test]
fn an_existing_target_is_overwritten_without_no_clobber() {
    let from = path(&["src"]);
    let target = path(&["dst"]);
    assert_eq!(
        entry_action(FileType::File, from.clone(), target.clone(), 13, false, true),
        Ok(WalkAction::Enqueue { op: CopyOp { from, target }, grow: 13 })
    );
}

#[test]
fn tree_copy_mirrors_every_entry() {
    let source = path(&["a"]);
    let dest = path(&["dst"]);
    let root = target_base(&dest, &source, true).unwrap();
    assert_eq!(root, path(&["dst", "a"]));

    let entries = vec![
        (path(&["a"]), FileType::Dir, 4096u64),
        (path(&["a", "link"]), FileType::Symlink, 1),
        (path(&["a", "sub"]), FileType::Dir, 4096),
        (path(&["a", "sub", "y"]), FileType::File, MIB + 7),
        (path(&["a", "x"]), FileType::File, 100),
    ];
    let mut actions = Vec::new();
    for (from, kind, len) in entries {
        let rel = relative_to(&from, &source).unwrap();
        let target = entry_target(&root, &rel);
        actions.push(entry_action(kind, from, target, len, false, false).unwrap());
    }
    assert_eq!(
        actions,
        vec![
            WalkAction::CreateDir { target: path(&["dst", "a"]) },
            WalkAction::CopyLink {
                from: path(&["a", "link"]),
                target: path(&["dst", "a", "link"])
            },
            WalkAction::CreateDir { target: path(&["dst", "a", "sub"]) },
            WalkAction::Enqueue {
                op: CopyOp {
                    from: path(&["a", "sub", "y"]),
                    target: path(&["dst", "a", "sub", "y"])
                },
                grow: MIB + 7
            },
            WalkAction::Enqueue {
                op: CopyOp { from: path(&["a", "x"]), target: path(&["dst", "a", "x"]) },
                grow: 100
            },
        ]
    );
}

#[test]
fn guard_target_refuses_only_an_existing_target_under_no_clobber() {
    let target = path(&["dst.txt"]);
    assert_eq!(
        guard_target(target.clone(), true, true),
        Err(XcpError::DestinationExists(target.clone()))
    );
    assert_eq!(guard_target(target.clone(), true, false), Ok(target.clone()));
    assert_eq!(guard_target(target.clone(), false, true), Ok(target.clone()));
    assert_eq!(guard_target(target.clone(), false, false), Ok(target));
}

#[test]
fn no_clobber_refusal_names_the_reason() {
    let e = guard_target(path(&["dest.txt"]), true, true).unwrap_err();
    assert!(e.message().contains("Destination file exists"));
}

#[test]
fn names_that_are_not_text_are_kept_byte_for_byte() {
    let odd: Vec<u8> = vec![0x66, 0xff, 0xfe, 0x6f];
    let source = vec![b"src".to_vec(), odd.clone()];
    let from = vec![b"src".to_vec(), odd.clone(), vec![0x80]];
    assert_eq!(source_name(&source), Ok(odd.clone()));
    let root = target_base(&path(&["dst"]), &source, true).unwrap();
    assert_eq!(root, vec![b"dst".to_vec(), odd.clone()]);
    let rel = relative_to(&from, &source).unwrap();
    assert_eq!(rel, vec![vec![0x80u8]]);
    assert_eq!(entry_target(&root, &rel), vec![b"dst".to_vec(), odd, vec![0x80]]);
    assert_eq!(relative_to(&from, &vec![b"src".to_vec(), vec![0x66, 0xff, 0xfe]]), None);
}

use std::path::{Component, Path};

use sync_engine::path::PathPart;
use sync_engine::{sync_mode_for_tool, target_dir_name, SkillPath, SyncMode};

fn path(text: &str) -> SkillPath {
    SkillPath::from_unix(text.as_bytes())
}

#[test]
fn sync_mode_defaults_to_symlink() {
    assert!(matches!(
        sync_mode_for_tool("codex", None),
        SyncMode::Symlink
    ));
}

#[test]
fn sync_mode_cursor_defaults_to_symlink() {
    assert!(matches!(
        sync_mode_for_tool("cursor", None),
        SyncMode::Symlink
    ));
}

#[test]
fn sync_mode_explicit_copy_overrides_default() {
    assert!(matches!(
        sync_mode_for_tool("codex", Some("copy")),
        SyncMode::Copy
    ));
}

#[test]
fn sync_mode_explicit_symlink_overrides_cursor_default() {
    assert!(matches!(
        sync_mode_for_tool("cursor", Some("symlink")),
        SyncMode::Symlink
    ));
}

#[test]
fn sync_mode_unknown_config_falls_back_to_tool_default() {
    assert!(matches!(
        sync_mode_for_tool("cursor", Some("invalid")),
        SyncMode::Symlink
    ));
    assert!(matches!(
        sync_mode_for_tool("codex", Some("invalid")),
        SyncMode::Symlink
    ));
}

#[test]
fn sync_mode_as_str() {
    assert_eq!(SyncMode::Symlink.as_str(), "symlink");
    assert_eq!(SyncMode::Copy.as_str(), "copy");
}

#[test]
fn mode_names_are_read_back() {
    for mode in [SyncMode::Symlink, SyncMode::Copy] {
        assert_eq!(sync_mode_for_tool("any", Some(mode.as_str())), mode);
    }
}

#[test]
fn mode_names_are_matched_exactly() {
    for text in ["Copy", "copy ", "cop", "copyy", ""] {
        assert_eq!(sync_mode_for_tool("cursor", Some(text)), SyncMode::Symlink);
    }
}

#[test]
fn target_dir_name_uses_central_directory_name() {
    let central_path = path("/central/skill123-2");

    assert_eq!(target_dir_name(&central_path, "skill123"), "skill123-2");
}

#[test]
fn target_dir_name_falls_back_to_skill_name() {
    assert_eq!(target_dir_name(&path(""), "skill123"), "skill123");
}

#[test]
fn target_dir_name_ignores_trailing_separators() {
    assert_eq!(target_dir_name(&path("/central/a//"), "s"), "a");
    assert_eq!(target_dir_name(&path("/central/a/."), "s"), "a");
}

#[test]
fn target_dir_name_needs_a_name_at_the_end() {
    assert_eq!(target_dir_name(&path("/"), "s"), "s");
    assert_eq!(target_dir_name(&path("/central/.."), "s"), "s");
    assert_eq!(target_dir_name(&path("."), "s"), "s");
}

#[test]
fn target_dir_name_needs_text() {
    let central_path = SkillPath::from_unix(&[0x2f, 0x61, 0x2f, 0xff, 0x62]);
    assert_eq!(target_dir_name(&central_path, "skill"), "skill");
    let central_path = SkillPath::from_unix("/a/h\u{e9}".as_bytes());
    assert_eq!(target_dir_name(&central_path, "skill"), "h\u{e9}");
}

fn std_parts(text: &str) -> Vec<PathPart<Vec<u8>>> {
    Path::new(text)
        .components()
        .map(|component| match component {
            Component::Prefix(prefix) => {
                PathPart::Prefix(prefix.as_os_str().as_encoded_bytes().to_vec())
            }
            Component::RootDir => PathPart::RootDir,
            Component::CurDir => PathPart::CurDir,
            Component::ParentDir => PathPart::ParentDir,
            Component::Normal(name) => PathPart::Normal(name.as_encoded_bytes().to_vec()),
        })
        .collect()
}

const SAMPLES: [&str; 24] = [
    "", "/", "//", ".", "./", "./.", "..", "../", "a", "a/", "a//", "/a", "//a", "/a/", "a/b",
    "a/./b", "./a/b", "a/../b", "/..", "/.", "...", ".a", "a/.b/..", "/a//./b/../c.d/",
];

#[test]
fn paths_have_the_components_of_std_paths() {
    for text in SAMPLES {
        let ours = path(text);
        assert_eq!(ours.parts, std_parts(text), "{text:?}");
        assert_eq!(ours.absolute, Path::new(text).is_absolute(), "{text:?}");
    }
}

#[test]
fn parents_and_names_are_those_of_std_paths() {
    for text in SAMPLES {
        let parent = Path::new(text)
            .parent()
            .map(|parent| std_parts(parent.to_str().unwrap()));
        assert_eq!(path(text).parent().map(|p| p.parts), parent, "{text:?}");
        let name = Path::new(text)
            .file_name()
            .map(|name| name.as_encoded_bytes().to_vec());
        assert_eq!(path(text).file_name().cloned(), name, "{text:?}");
    }
}

#[test]
fn joining_and_containment_are_those_of_std_paths() {
    for a in SAMPLES {
        for b in SAMPLES {
            let joined = Path::new(a).join(b);
            assert_eq!(
                path(a).joined(&path(b)).parts,
                std_parts(joined.to_str().unwrap()),
                "{a:?} {b:?}"
            );
            assert_eq!(
                path(a).is_within(&path(b)),
                Path::new(a).starts_with(b),
                "{a:?} {b:?}"
            );
            assert_eq!(
                path(a).same_as(&path(b)),
                Path::new(a) == Path::new(b),
                "{a:?} {b:?}"
            );
        }
    }
}

#[test]
fn joining_keeps_a_prefix_in_front_of_a_root() {
    let drive = || PathPart::Prefix(b"C:".to_vec());
    let base = SkillPath {
        absolute: true,
        parts: vec![drive(), PathPart::RootDir, PathPart::Normal(b"a".to_vec())],
    };
    let rooted = SkillPath {
        absolute: false,
        parts: vec![PathPart::RootDir, PathPart::Normal(b"b".to_vec())],
    };
    let there = base.joined(&rooted);
    assert_eq!(
        there.parts,
        vec![drive(), PathPart::RootDir, PathPart::Normal(b"b".to_vec())]
    );
    let other_drive = SkillPath {
        absolute: false,
        parts: vec![PathPart::Prefix(b"D:".to_vec())],
    };
    assert_eq!(base.joined(&other_drive).parts, other_drive.parts);
    assert_eq!(base.child(&b"x".to_vec()).parts.len(), 4);
}

#[test]
fn verbatim_prefixes_leave_no_dots() {
    let drive = || PathPart::Verbatim(b"C".to_vec());
    let name = |text: &str| PathPart::Normal(text.as_bytes().to_vec());
    let base = |prefix| SkillPath {
        absolute: true,
        parts: vec![prefix, PathPart::RootDir, name("a"), name("b")],
    };
    let link = SkillPath::from_unix(b"../.././../x/./y");
    assert_eq!(
        base(drive()).joined(&link).parts,
        vec![drive(), PathPart::RootDir, name("x"), name("y")]
    );
    let plain = || PathPart::Prefix(b"C".to_vec());
    assert_eq!(
        base(plain()).joined(&SkillPath::from_unix(b"../x")).parts,
        vec![
            plain(),
            PathPart::RootDir,
            name("a"),
            name("b"),
            PathPart::ParentDir,
            name("x")
        ]
    );
    let rooted = SkillPath {
        absolute: false,
        parts: vec![PathPart::RootDir, name("x")],
    };
    assert_eq!(
        base(drive()).joined(&rooted).parts,
        vec![drive(), PathPart::RootDir, name("x")]
    );
}

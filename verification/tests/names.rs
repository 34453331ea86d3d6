use hyperfc::names::{executable_name, link_object_file, link_succeeded, strip_extension, try_executable_name};

#[test]
fn executable_name_bf() {
    assert_eq!(executable_name("foo.bf"), "foo");
}

#[test]
fn executable_name_b() {
    assert_eq!(executable_name("foo_bar.b"), "foo_bar");
}

#[test]
fn executable_name_relative_path() {
    assert_eq!(executable_name("bar/baz.bf"), "baz");
}

#[test]
fn executable_name_keeps_inner_dots() {
    assert_eq!(executable_name("dir.d/a.b.c"), "a.b");
}

#[test]
fn executable_name_without_extension() {
    assert_eq!(executable_name("bin/prog"), "prog");
}

#[test]
fn try_executable_name_of_a_file() {
    assert_eq!(try_executable_name("x/y/hello.hf"), Some(String::from("hello")));
}

#[test]
fn try_executable_name_without_final_component() {
    assert_eq!(try_executable_name("/"), None);
    assert_eq!(try_executable_name("foo/.."), None);
    assert_eq!(try_executable_name(""), None);
}

#[test]
fn strip_extension_cases() {
    assert_eq!(strip_extension("foo.bf"), "foo");
    assert_eq!(strip_extension("foo"), "foo");
    assert_eq!(strip_extension("foo."), "foo");
    assert_eq!(strip_extension(".hidden"), "");
    assert_eq!(strip_extension("a.b.c"), "a.b");
    assert_eq!(strip_extension(""), "");
    assert_eq!(strip_extension("héllo.wörld.bf"), "héllo.wörld");
}

#[test]
fn link_command_plain() {
    let cmd = link_object_file("out.o", "out", None, false);
    assert_eq!(cmd.program, "clang");
    assert_eq!(cmd.args, vec!["out.o", "-o", "out"]);
}

#[test]
fn link_command_with_target_and_strip() {
    let cmd = link_object_file("a.o", "a", Some(String::from("x86_64-unknown-linux-gnu")), true);
    assert_eq!(cmd.program, "clang");
    assert_eq!(cmd.args, vec!["a.o", "-o", "a", "-target", "x86_64-unknown-linux-gnu", "-s"]);
}

#[test]
fn link_command_strip_only() {
    let cmd = link_object_file("a.o", "a", None, true);
    assert_eq!(cmd.args, vec!["a.o", "-o", "a", "-s"]);
}

#[test]
fn link_exit_codes() {
    assert!(link_succeeded(Some(0)));
    assert!(!link_succeeded(Some(1)));
    assert!(!link_succeeded(None));
}

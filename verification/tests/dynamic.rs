use treeish::dynamic::{looks_like_path, LookupEnv};

#[test]
fn looks_like_path_cases() {
    assert!(looks_like_path("/etc/passwd"));
    assert!(looks_like_path("./a"));
    assert!(looks_like_path("../a"));
    assert!(looks_like_path("~"));
    assert!(looks_like_path("a/b"));
    assert!(!looks_like_path("hello"));
    assert!(!looks_like_path(""));
}

#[test]
fn expand_home_and_relative() {
    let env = LookupEnv::with_pwd("/work//");
    assert_eq!(env.expand("~", Some("/home/u")), "/home/u");
    assert_eq!(env.expand("~/x", Some("/home/u")), "/home/u/x");
    assert_eq!(env.expand("~other/x", Some("/home/u")), "~other/x");
    assert_eq!(env.expand("~/x", None), "~/x");
    assert_eq!(env.expand("./a", None), "/work/./a");
    assert_eq!(env.expand("../a", None), "/work/../a");
    assert_eq!(env.expand("sub/file.txt", None), "/work/sub/file.txt");
    // An absolute path is looked up as written.
    assert_eq!(env.expand("/abs", None), "/abs");
    assert_eq!(LookupEnv::with_pwd("/tmp").expand("/etc/passwd", None), "/etc/passwd");
    assert_eq!(env.expand("plain", None), "plain");
    let no_pwd = LookupEnv::default();
    assert_eq!(no_pwd.expand("sub/file.txt", None), "sub/file.txt");
    assert_eq!(no_pwd.expand("./a", None), "./a");
}

use sdproxy::path::{extract_path_info, extract_session_id, is_xhttp_path};

fn info(id: &str, number: Option<u64>) -> (String, Option<u64>) {
    (id.to_string(), number)
}

#[test]
fn long_paths_and_ssh_paths_name_sessions() {
    for path in ["/abcdef", "/ssh", "/ssh/x", "ssh", "///sshd", "/a/b/c/d", "/ééé"] {
        assert!(is_xhttp_path(path), "{}", path);
    }
    for path in ["", "/", "////", "/abcde", "/a/b", "/SSH", "/ss", "/éé"] {
        assert!(!is_xhttp_path(path), "{}", path);
    }
}

#[test]
fn the_session_is_the_identifying_segment() {
    assert_eq!(extract_session_id("/abcdef"), "abcdef");
    assert_eq!(extract_session_id("/abcdef/7/x"), "abcdef");
    assert_eq!(extract_session_id("/ssh/abcdef"), "abcdef");
    assert_eq!(extract_session_id("/ssh/abcdef/7"), "abcdef");
    assert_eq!(extract_session_id("//abcdef"), "abcdef");
    assert_eq!(extract_session_id("abcdef?x=1"), "abcdef?x=1");
}

#[test]
fn ssh_alone_is_a_session_of_its_own() {
    assert_eq!(extract_session_id("/ssh"), "ssh");
    assert_eq!(extract_session_id("/ssh/"), "");
    assert_eq!(extract_session_id("/sshd/x"), "sshd");
    assert_eq!(extract_session_id(""), "");
    assert_eq!(extract_session_id("///"), "");
}

#[test]
fn a_path_names_session_and_packet() {
    assert_eq!(extract_path_info("/abc"), info("abc", None));
    assert_eq!(extract_path_info("/abc/3"), info("abc", Some(3)));
    assert_eq!(extract_path_info("/abc/3/9"), info("abc", Some(3)));
    assert_eq!(extract_path_info("/abc/18446744073709551615"), info("abc", Some(u64::MAX)));
    assert_eq!(extract_path_info("/abc/18446744073709551616"), info("abc", None));
    assert_eq!(extract_path_info("/abc/x"), info("abc", None));
    assert_eq!(extract_path_info("/abc/"), info("abc", None));
}

#[test]
fn a_marker_changes_nothing() {
    for marker in ["ssh", "xhttp", "split"] {
        assert_eq!(extract_path_info(&format!("/{}/abc", marker)), info("abc", None));
        assert_eq!(extract_path_info(&format!("/{}/abc/3", marker)), info("abc", Some(3)));
        assert_eq!(extract_path_info(&format!("/{}/abc/x", marker)), info("abc", None));
        assert_eq!(extract_path_info(&format!("/{}", marker)), info(marker, None));
        assert_eq!(extract_path_info(&format!("/{}/", marker)), info("", None));
    }
}

#[test]
fn the_query_is_ignored() {
    assert_eq!(extract_path_info("/abc/3?x=/9"), info("abc", Some(3)));
    assert_eq!(extract_path_info("/abc?x?y"), info("abc", None));
    assert_eq!(extract_path_info("?abc"), info("", None));
}

#[test]
fn an_empty_path_names_the_empty_session() {
    assert_eq!(extract_path_info(""), info("", None));
    assert_eq!(extract_path_info("/"), info("", None));
    assert_eq!(extract_path_info("//abc"), info("abc", None));
}

#[test]
fn any_segment_is_a_session_under_a_marker() {
    assert_eq!(extract_session_id("/ssh/ssh"), "ssh");
    assert_eq!(extract_session_id("/ssh/ssh/x"), "ssh");
    assert_eq!(extract_session_id("/ssh//x"), "");
    assert_eq!(extract_path_info("/xhttp/split/4"), info("split", Some(4)));
    assert_eq!(extract_path_info("/xhttp//4"), info("", Some(4)));
    assert_eq!(extract_path_info("/a?b/2?c"), extract_path_info("/a?b/2"));
}

#[test]
fn a_further_slash_changes_nothing() {
    for path in ["", "a", "/a/3", "//ssh/b", "?x", "/abcdef", "/a?/b"] {
        let longer = format!("/{}", path);
        assert_eq!(extract_path_info(&longer), extract_path_info(path));
        assert_eq!(extract_session_id(&longer), extract_session_id(path));
        assert_eq!(is_xhttp_path(&longer), is_xhttp_path(path));
    }
}

#[test]
fn an_identifier_names_itself() {
    for path in ["", "/a/3", "/ssh/ssh/x", "/xhttp/b/2", "/a?b/c", "/ssh/"] {
        let id = extract_session_id(path);
        assert_eq!(extract_session_id(&id), id);
        let (id, _) = extract_path_info(path);
        assert_eq!(extract_path_info(&id), (id, None));
    }
}

#[test]
fn a_longer_path_still_names_a_session() {
    for path in ["/abcdef", "/ssh", "ssh", "/\u{e9}\u{e9}\u{e9}"] {
        for more in ["", "/", "x", "/\u{e9}?"] {
            assert!(is_xhttp_path(&format!("{}{}", path, more)));
        }
    }
}

#[test]
fn both_readers_name_the_same_session() {
    for path in ["", "/a", "/a/3", "/ssh", "/ssh/b/4", "/a/x?y", "/ssh/b/c?d", "/xhttp", "//split"] {
        assert_eq!(extract_session_id(path), extract_path_info(path).0);
    }
    for path in ["/a?b", "/ssh/a?b", "/ssh?a"] {
        assert_ne!(extract_session_id(path), extract_path_info(path).0);
    }
    assert_eq!(extract_session_id("/xhttp/b?c"), "xhttp");
    assert_eq!(extract_path_info("/xhttp/b?c").0, "b");
}

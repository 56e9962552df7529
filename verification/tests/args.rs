use sdproxy::args::has_arg;
use sdproxy::{proxy, split, tunnel};

fn args(list: &[&str]) -> Vec<String> {
    list.iter().map(|a| a.to_string()).collect()
}

#[test]
fn without_options_there_are_defaults() {
    let a = args(&["prog"]);
    assert_eq!(proxy::get_port(&a), 8080);
    assert_eq!(proxy::get_quic_port(&a), 8001);
    assert_eq!(proxy::get_status(&a), "@SDProxy");
    assert_eq!(split::get_port(&a), 443);
    assert_eq!(split::get_ssh_port(&a), 22);
    assert_eq!(split::get_status(&a), "@SDProxy");
    assert_eq!(tunnel::get_port(&a), 443);
    assert_eq!(tunnel::get_ssh_port(&a), 22);
    assert_eq!(tunnel::get_status(&a), "@SDProxy");
    assert_eq!(tunnel::get_port(&[]), 443);
}

#[test]
fn options_are_found_under_both_names() {
    let a = args(&["prog", "-p", "9", "-s", "up", "--ssh-port", "2222", "--quic-port", "77"]);
    assert_eq!(proxy::get_port(&a), 9);
    assert_eq!(proxy::get_quic_port(&a), 77);
    assert_eq!(proxy::get_status(&a), "up");
    assert_eq!(split::get_port(&a), 9);
    assert_eq!(split::get_ssh_port(&a), 2222);
    assert_eq!(split::get_status(&a), "up");
    assert_eq!(tunnel::get_port(&a), 9);
    assert_eq!(tunnel::get_ssh_port(&a), 2222);
    assert_eq!(tunnel::get_status(&a), "up");
    let b = args(&["prog", "--port", "9", "--status", "up"]);
    assert_eq!(proxy::get_port(&b), 9);
    assert_eq!(split::get_status(&b), "up");
    assert_eq!(tunnel::get_port(&b), 9);
}

#[test]
fn the_first_or_the_last_option_counts() {
    let a = args(&["prog", "-p", "1", "--port", "2", "-s", "x", "--status", "y"]);
    assert_eq!(proxy::get_port(&a), 1);
    assert_eq!(split::get_port(&a), 1);
    assert_eq!(tunnel::get_port(&a), 2);
    assert_eq!(proxy::get_status(&a), "x");
    assert_eq!(split::get_status(&a), "x");
    assert_eq!(tunnel::get_status(&a), "y");
}

#[test]
fn a_value_that_is_no_port_gives_the_default() {
    for value in ["", "x", "-1", "65536", "1.5"] {
        let a = args(&["prog", "-p", value]);
        assert_eq!(proxy::get_port(&a), 8080);
        assert_eq!(split::get_port(&a), 443);
        assert_eq!(tunnel::get_port(&a), 443);
    }
}

#[test]
fn an_option_without_a_value_gives_the_default() {
    let a = args(&["prog", "--port"]);
    assert_eq!(proxy::get_port(&a), 8080);
    assert_eq!(split::get_port(&a), 443);
    assert_eq!(tunnel::get_port(&a), 443);
    let b = args(&["prog", "-p", "7", "-p"]);
    assert_eq!(proxy::get_port(&b), 7);
    assert_eq!(split::get_port(&b), 7);
    assert_eq!(tunnel::get_port(&b), 7);
    let c = args(&["prog", "-p", "7", "--ssh-port"]);
    assert_eq!(tunnel::get_port(&c), 7);
    assert_eq!(tunnel::get_ssh_port(&c), 22);
}

#[test]
fn the_name_of_the_program_may_count() {
    let a = args(&["-p", "7"]);
    assert_eq!(proxy::get_port(&a), 8080);
    assert_eq!(split::get_port(&a), 7);
    assert_eq!(tunnel::get_port(&a), 443);
}

#[test]
fn flags_are_found_anywhere() {
    let a = args(&["-q", "x", "-u"]);
    assert!(has_arg(&a, "-u"));
    assert!(has_arg(&a, "-q"));
    assert!(!has_arg(&a, "-"));
    assert!(!has_arg(&[], "-u"));
}

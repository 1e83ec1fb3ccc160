use bril_lvn::options::{parse_options, Options};

fn args(list: &[&str]) -> Vec<String> {
    list.iter().map(|a| a.to_string()).collect()
}

fn options(p: bool, c: bool, f: bool) -> Options {
    Options { handle_copy_propagate: p, handle_commutativity: c, handle_const_folding: f }
}

#[test]
fn new_options_switch_everything_off() {
    assert_eq!(Options::new(), options(false, false, false));
}

#[test]
fn no_arguments_no_rewrites() {
    assert_eq!(parse_options(&[]), options(false, false, false));
}

#[test]
fn each_switch_alone() {
    assert_eq!(parse_options(&args(&["-p"])), options(true, false, false));
    assert_eq!(parse_options(&args(&["-c"])), options(false, true, false));
    assert_eq!(parse_options(&args(&["-f"])), options(true, true, true));
}

#[test]
fn switches_add_up_in_any_order() {
    assert_eq!(parse_options(&args(&["-c", "-p"])), options(true, true, false));
    assert_eq!(parse_options(&args(&["-p", "-c", "-p", "-p"])), options(true, true, false));
    assert_eq!(parse_options(&args(&["-f", "-c"])), options(true, true, true));
}

#[test]
fn what_is_no_switch_is_passed_over() {
    assert_eq!(
        parse_options(&args(&["lvn", "--help", "-x", "p", "-", "", "-pc", "-P", " -p", "-p "])),
        options(false, false, false)
    );
    assert_eq!(parse_options(&args(&["lvn", "-q", "-c", "file"])), options(false, true, false));
}

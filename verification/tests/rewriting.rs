use rg_replace::args::{
    forwarded_args, handle_args, inject_required, remove_options, rewrite_args, to_strings,
};

#[test]
fn remove_option_and_value_from_start() {
    let replace = ("--replace", true);
    assert_eq!(
        vec!["good"],
        remove_options(to_strings(vec![replace.0, "arg", "good"]), vec![replace])
    );
}

#[test]
fn remove_option_and_value_from_end() {
    let replace = ("--replace", true);
    assert_eq!(
        vec!["good"],
        remove_options(to_strings(vec!["good", replace.0, "arg"]), vec![replace])
    );
}

#[test]
fn remove_option_from_start() {
    let diff = ("--diff", false);
    assert_eq!(
        vec!["not-arg"],
        remove_options(to_strings(vec![diff.0, "not-arg"]), vec![diff])
    );
}

#[test]
fn remove_option_from_middle() {
    let diff = ("--diff", false);
    assert_eq!(
        vec!["good", "not-arg"],
        remove_options(to_strings(vec!["good", diff.0, "not-arg"]), vec![diff])
    );
}

#[test]
fn remove_option_from_end() {
    let diff = ("--diff", true);
    assert_eq!(
        vec!["good"],
        remove_options(to_strings(vec!["good", diff.0]), vec![diff])
    );
}

#[test]
fn replace_with_its_value_leaves_the_rest() {
    let kept = remove_options(
        to_strings(vec!["--replace", "foo", "src/a.rs", "--diff"]),
        vec![("--replace", true)],
    );
    assert_eq!(vec!["src/a.rs", "--diff"], kept);
}

#[test]
fn attached_value_leaves_alone() {
    let kept = remove_options(
        to_strings(vec!["--replace=foo", "pattern", "dir"]),
        vec![("--replace", true)],
    );
    assert_eq!(vec!["pattern", "dir"], kept);
}

#[test]
fn value_that_looks_like_a_flag_is_dropped_unseen() {
    let kept = remove_options(
        to_strings(vec!["--replace", "--diff", "out.patch", "x"]),
        vec![("--replace", true), ("--diff", true)],
    );
    assert_eq!(vec!["out.patch", "x"], kept);
}

#[test]
fn several_specs_are_all_honoured() {
    let kept = remove_options(
        to_strings(vec!["-R", "new", "--iterative", "needle", "--diff", "p.diff", "src"]),
        vec![("--replace", true), ("-R", true), ("--diff", true), ("--iterative", false)],
    );
    assert_eq!(vec!["needle", "src"], kept);
}

#[test]
fn first_matching_spec_decides() {
    let kept = remove_options(
        to_strings(vec!["--diff", "a", "b"]),
        vec![("--d", false), ("--diff", true)],
    );
    assert_eq!(vec!["a", "b"], kept);
}

#[test]
fn no_specs_keep_everything() {
    let kept = remove_options(to_strings(vec!["a", "--b", "c"]), vec![]);
    assert_eq!(vec!["a", "--b", "c"], kept);
}

#[test]
fn injecting_a_present_flag_changes_nothing() {
    let out = inject_required(to_strings(vec!["--json", "needle"]), &vec!["--json"]);
    assert_eq!(vec!["--json", "needle"], out);
}

#[test]
fn injecting_an_absent_flag_appends_it_once() {
    let out = inject_required(to_strings(vec!["needle"]), &vec!["--json"]);
    assert_eq!(vec!["needle", "--json"], out);
}

#[test]
fn presence_is_by_whole_token() {
    let out = inject_required(to_strings(vec!["--json-path", "--context"]), &vec!["--json", "--context=3"]);
    assert_eq!(vec!["--json-path", "--context", "--json", "--context=3"], out);
}

#[test]
fn handle_args_appends_the_required_flags() {
    let out = handle_args(
        to_strings(vec!["--replace", "new", "needle", "--line_number"]),
        vec![("--replace", true)],
    );
    assert_eq!(vec!["needle", "--line_number", "--json", "--context=3"], out);
}

#[test]
fn rewriting_twice_is_rewriting_once() {
    let once = forwarded_args(to_strings(vec!["-R", "x", "needle", "--diff", "out", "--json", "src"]));
    assert_eq!(vec!["needle", "--json", "src", "--line_number", "--context=3"], once);
    let twice = forwarded_args(once.clone());
    assert_eq!(once, twice);
}

#[test]
fn rewrite_args_removes_then_injects() {
    let out = rewrite_args(
        to_strings(vec!["--x", "1", "keep"]),
        vec![("--x", true)],
        &vec!["--must"],
    );
    assert_eq!(vec!["keep", "--must"], out);
}

#[test]
fn to_strings_copies_each_slice() {
    assert_eq!(vec!["a".to_string(), "bc".to_string()], to_strings(vec!["a", "bc"]));
}

#[test]
fn handle_args_appends_all_three_to_a_bare_pattern() {
    let out = handle_args(to_strings(vec!["pat"]), vec![("--replace", true)]);
    assert_eq!(vec!["pat", "--json", "--line_number", "--context=3"], out);
}

#[test]
fn handle_args_appends_nothing_where_all_three_are_present() {
    let out = handle_args(
        to_strings(vec!["pat", "--json", "--line_number", "--context=3"]),
        vec![("--replace", true)],
    );
    assert_eq!(vec!["pat", "--json", "--line_number", "--context=3"], out);
}

#[test]
fn handle_args_strips_the_managed_flags_and_appends_the_required() {
    let out = handle_args(
        to_strings(vec!["--replace", "foo", "src/a.rs", "--diff", "out.patch", "--iterative"]),
        vec![("--replace", true), ("-R", true), ("--diff", true), ("--iterative", false)],
    );
    assert_eq!(vec!["src/a.rs", "--json", "--line_number", "--context=3"], out);
}

#[test]
fn handle_args_takes_a_longer_token_for_another_flag() {
    let out = handle_args(to_strings(vec!["pat", "--jsonx"]), vec![("--replace", true)]);
    assert_eq!(vec!["pat", "--jsonx", "--json", "--line_number", "--context=3"], out);
}

#[test]
fn hyphenated_spelling_does_not_count_as_present() {
    let out = handle_args(to_strings(vec!["pat", "--line-number"]), vec![]);
    assert_eq!(
        vec!["pat", "--line-number", "--json", "--line_number", "--context=3"],
        out
    );
}

//! Template engine behaviour on concrete inputs.

use kyanite::template::expand_template;

#[test]
fn full_line_placeholder() {
    assert_eq!(expand_template("echo {}", "hello", " ", "{}"), "echo hello");
}

#[test]
fn fields_basic() {
    assert_eq!(
        expand_template("echo {1} {2}", "first second third", " ", "{}"),
        "echo first second"
    );
}

#[test]
fn field_tail_and_head_ranges() {
    assert_eq!(expand_template("{2+}", "a b c d", " ", "{}"), "b c d");
    assert_eq!(expand_template("{2-}", "a b c d", " ", "{}"), "a b");
    assert_eq!(expand_template("{1+}", "a b c d", " ", "{}"), "a b c d");
}

#[test]
fn split_rejoin_matches_ranges() {
    let line = "one,two,three";
    let fields: Vec<&str> = line.split(',').collect();
    assert_eq!(expand_template("{2-}", line, ",", "{}"), fields[0..2].join(","));
    assert_eq!(expand_template("{2+}", line, ",", "{}"), fields[1..].join(","));
}

#[test]
fn field_index_zero_is_empty() {
    assert_eq!(expand_template("x{0}y", "a b", " ", "{}"), "xy");
}

#[test]
fn field_index_beyond_count_is_empty() {
    assert_eq!(expand_template("x{5}y", "a b c", " ", "{}"), "xy");
}

#[test]
fn field_index_huge_is_empty() {
    assert_eq!(expand_template("x{99999999999999999999}y", "a b c", " ", "{}"), "xy");
}

#[test]
fn sed_global_substitution() {
    assert_eq!(
        expand_template("echo {s/old/new/g}", "old old new", " ", "{}"),
        "echo new new new"
    );
}

#[test]
fn sed_first_only_without_global_flag() {
    assert_eq!(
        expand_template("echo {s/old/new/}", "old old new", " ", "{}"),
        "echo new old new"
    );
}

#[test]
fn sed_case_insensitive_flag() {
    assert_eq!(expand_template("{s/OLD/new/i}", "old OLD", " ", "{}"), "new OLD");
}

#[test]
fn sed_then_literal_placeholder() {
    assert_eq!(
        expand_template("cp {} {s/.mp4/.mp3/g}", "video.mp4", " ", "{}"),
        "cp video.mp4 video.mp3"
    );
}

#[test]
fn sed_invalid_pattern_passes_through_verbatim() {
    assert_eq!(
        expand_template("run {s/[/x/g} end", "anything", " ", "{}"),
        "run {s/[/x/g} end"
    );
}

#[test]
fn capture_group_extraction() {
    assert_eq!(
        expand_template("{/v(.*)4/1}", "video.mp4", " ", "{}"),
        "ideo.mp"
    );
}

#[test]
fn capture_group_whole_match() {
    assert_eq!(expand_template("{/m.4/0}", "video.mp4", " ", "{}"), "mp4");
}

#[test]
fn capture_no_match_is_empty() {
    assert_eq!(expand_template("x{/zzz/1}y", "video.mp4", " ", "{}"), "xy");
}

#[test]
fn capture_missing_group_is_empty() {
    assert_eq!(expand_template("x{/(a)/7}y", "a", " ", "{}"), "xy");
}

#[test]
fn capture_invalid_pattern_is_empty() {
    assert_eq!(expand_template("x{/[/1}y", "a", " ", "{}"), "xy");
}

#[test]
fn capture_huge_group_index_is_empty() {
    assert_eq!(expand_template("x{/a/99999999999999999999}y", "a", " ", "{}"), "xy");
}

#[test]
fn custom_two_char_placeholder() {
    assert_eq!(expand_template("echo [1] []", "a b", " ", "[]"), "echo a a b");
}

#[test]
fn custom_single_char_placeholder() {
    assert_eq!(expand_template("echo %1% %", "a b", " ", "%"), "echo a a b");
}

#[test]
fn no_constructs_template_unchanged() {
    assert_eq!(expand_template("plain text", "line", " ", "{}"), "plain text");
}

#[test]
fn empty_template_stays_empty() {
    assert_eq!(expand_template("", "line", " ", "{}"), "");
}

#[test]
fn empty_line_expansions() {
    assert_eq!(expand_template("a{}b{1}c", "", " ", "{}"), "abc");
}

#[test]
fn expansion_is_repeatable() {
    let a = expand_template("echo {1} {s/a/b/g} {}", "a aa", " ", "{}");
    let b = expand_template("echo {1} {s/a/b/g} {}", "a aa", " ", "{}");
    assert_eq!(a, b);
}

#[test]
fn malformed_constructs_never_fail() {
    for t in ["{", "{s/", "{s//x/}", "{1", "{+}", "{/a", "{//0}", "{s/a/b", "}{"] {
        let out = expand_template(t, "some line", " ", "{}");
        assert!(out.len() <= t.len() + "some line".len() * 4);
    }
}

#[test]
fn sed_replacement_uses_original_line_not_prior_output() {
    // both constructs see the original line, not each other's output
    assert_eq!(
        expand_template("{s/a/b/g} {s/b/c/g}", "ab", " ", "{}"),
        "bb ac"
    );
}

use git_include::template::render;

fn vars() -> Vec<(&'static str, String)> {
    vec![
        ("subdir", "vendor/lib".into()),
        ("short_commit", "abc1234".into()),
    ]
}

#[test]
fn substitutes_variables() {
    assert_eq!(
        render("sync {{ subdir }} to {{ short_commit }}", &vars()),
        "sync vendor/lib to abc1234"
    );
}

#[test]
fn whitespace_inside_tags_is_flexible() {
    assert_eq!(
        render("{{subdir}} {{  subdir  }}", &vars()),
        "vendor/lib vendor/lib"
    );
}

#[test]
fn unknown_variables_stay_visible() {
    assert_eq!(render("x {{ nope }} y", &vars()), "x {{ nope }} y");
}

#[test]
fn escaped_newlines_become_real_ones() {
    assert_eq!(render("a\\n\\nb", &vars()), "a\n\nb");
}

#[test]
fn unterminated_tag_is_kept_verbatim() {
    assert_eq!(render("a {{ subdir", &vars()), "a {{ subdir");
}

#[test]
fn no_tags_passthrough() {
    assert_eq!(render("plain text", &vars()), "plain text");
}

#[test]
fn adjacent_and_repeated_tags() {
    assert_eq!(
        render("{{ subdir }}{{ subdir }}", &vars()),
        "vendor/libvendor/lib"
    );
}

#[test]
fn template_without_tags_renders_unchanged_for_any_variables() {
    let none: Vec<(&str, String)> = Vec::new();
    assert_eq!(render("just text, no tags", &none), "just text, no tags");
    assert_eq!(render("just text, no tags", &vars()), "just text, no tags");
    assert_eq!(render("", &vars()), "");
}

#[test]
fn first_binding_of_a_repeated_variable_wins() {
    let v: Vec<(&str, String)> = vec![("x", "one".into()), ("x", "two".into())];
    assert_eq!(render("{{ x }}", &v), "one");
}

#[test]
fn escaped_newline_between_tags() {
    assert_eq!(render("{{ subdir }}\\n{{ short_commit }}", &vars()), "vendor/lib\nabc1234");
}

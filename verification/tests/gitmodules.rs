use git_include::migrate::{
    parse_gitmodules, remaining_gitmodules, select_submodules, submodule_config_keys, Submodule,
    GITLINK_MODE,
};

#[test]
fn parses_typical_gitmodules() {
    let subs = parse_gitmodules(
        "[submodule \"one\"]\n\tpath = vendor/one\n\turl = https://x/one.git\n\
         [submodule \"two\"]\n    url = ../two.git\n    path = libs/two\n    branch = dev\n",
    )
    .unwrap();
    assert_eq!(subs.len(), 2);
    assert_eq!(subs[0].name, "one");
    assert_eq!(subs[0].path, "vendor/one");
    assert_eq!(subs[1].url, "../two.git");
    assert_eq!(subs[1].path, "libs/two");
}

#[test]
fn incomplete_sections_are_ignored() {
    let subs =
        parse_gitmodules("[submodule \"broken\"]\n\tpath = only/path\n[other]\nkey = 1\n")
            .unwrap();
    assert!(subs.is_empty());
}

fn sub(name: &str, path: &str, url: &str) -> Submodule {
    Submodule { name: name.into(), path: path.into(), url: url.into() }
}

#[test]
fn keys_after_another_section_do_not_leak_into_a_submodule() {
    let subs = parse_gitmodules(
        "[submodule \"a\"]\n\tpath = pa\n[core]\n\turl = not-for-a\n",
    )
    .unwrap();
    assert!(subs.is_empty());
    let subs = parse_gitmodules("[submodule \"a\"]\n\turl = u\n\tpath = p\n").unwrap();
    assert_eq!(subs, vec![sub("a", "p", "u")]);
}

#[test]
fn removing_one_section_keeps_the_others() {
    let content = "[submodule \"one\"]\n\tpath = vendor/one\n\turl = u1\n\
                   [submodule \"two\"]\n\tpath = libs/two\n\turl = u2\n";
    assert_eq!(
        remaining_gitmodules(content, "one").as_deref(),
        Some("[submodule \"two\"]\n\tpath = libs/two\n\turl = u2\n")
    );
    assert_eq!(
        remaining_gitmodules(content, "two").as_deref(),
        Some("[submodule \"one\"]\n\tpath = vendor/one\n\turl = u1\n")
    );
}

#[test]
fn removing_the_last_section_removes_the_file() {
    let content = "[submodule \"only\"]\n\tpath = p\n\turl = u\n";
    assert_eq!(remaining_gitmodules(content, "only"), None);
    assert_eq!(
        remaining_gitmodules(content, "absent").as_deref(),
        Some("[submodule \"only\"]\n\tpath = p\n\turl = u\n")
    );
}

#[test]
fn selecting_submodules_by_path() {
    let all = vec![sub("one", "vendor/one", "u1"), sub("two", "libs/two", "u2")];
    assert_eq!(select_submodules(&all, &Vec::new()), Ok(all.clone()));
    assert_eq!(
        select_submodules(&all, &vec!["libs/two".to_string(), "vendor/one".to_string()]),
        Ok(vec![all[1].clone(), all[0].clone()])
    );
    assert_eq!(
        select_submodules(&all, &vec!["vendor/one".to_string(), "nope".to_string()]),
        Err("'nope' is not a submodule; known submodules:\n  vendor/one\n  libs/two".to_string())
    );
}

#[test]
fn leftover_submodule_config_keys() {
    assert_eq!(
        submodule_config_keys("lib"),
        vec![
            "submodule.lib.url",
            "submodule.lib.active",
            "submodule.lib.branch",
            "submodule.lib.update",
            "submodule.lib.ignore",
        ]
    );
    assert_eq!(GITLINK_MODE, 0o160000);
}

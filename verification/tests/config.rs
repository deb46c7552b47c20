use vcs::config::{config, Config, ConfigOutcome};
use vcs::error::{ErrorKind, RepoError};
use vcs::ignore::{ignore_candidates, normalize_pattern, IgnoreRules};

fn pair(k: &str, v: &str) -> (String, String) {
    (k.to_string(), v.to_string())
}

fn sample() -> Config {
    Config::new(
        Some(
            b"user.name = Ann\n# comment\n\nbroken line\ncore.x=1=2\n  user.name=Bea  \r\n"
                .to_vec(),
        ),
        Some(b"user.name=Global\nuser.email=g@example.com\n".to_vec()),
    )
}

#[test]
fn config_get_prefers_the_repository() {
    let c = sample();
    assert_eq!(c.get("user.name"), Ok(Some("Bea".to_string())));
    assert_eq!(c.get("user.email"), Ok(Some("g@example.com".to_string())));
    assert_eq!(c.get("core.x"), Ok(Some("1=2".to_string())));
    assert_eq!(c.get("missing"), Ok(None));
    assert_eq!(c.get("# comment"), Ok(None));
    assert_eq!(c.get("broken line"), Ok(None));
}

#[test]
fn config_without_files_has_no_values() {
    let c = Config::new(None, None);
    assert_eq!(c.get("user.name"), Ok(None));
    assert_eq!(c.list(), Ok(vec![]));
    assert_eq!(c.get_user_email(), "user@example.com");
    assert_eq!(c.get_user_name("fallback".to_string()), "fallback");
}

#[test]
fn config_global_only_reads_the_user_file() {
    let c = Config::global_only(Some(b"user.name=G\n".to_vec()));
    assert_eq!(c.repo_config, None);
    assert_eq!(c.get("user.name"), Ok(Some("G".to_string())));
}

#[test]
fn config_that_is_not_text_is_an_error() {
    let c = Config::new(Some(vec![0xff, 0xfe]), Some(b"user.name=G\n".to_vec()));
    assert_eq!(c.get("user.name"), Err(RepoError::InvalidConfig));
    assert_eq!(c.list(), Err(RepoError::InvalidConfig));
    assert_eq!(c.get_user_name("sys".to_string()), "sys");
    assert_eq!(c.get_user_email(), "user@example.com");
    assert_eq!(RepoError::InvalidConfig.kind(), ErrorKind::Corrupt);
    let c = Config::new(Some(b"user.name=R\n".to_vec()), Some(vec![0xff]));
    assert_eq!(c.get("user.name"), Ok(Some("R".to_string())));
    assert_eq!(c.get("other"), Err(RepoError::InvalidConfig));
}

#[test]
fn config_user_name_and_email() {
    let c = sample();
    assert_eq!(c.get_user_name("sys".to_string()), "Bea");
    assert_eq!(c.get_user_email(), "g@example.com");
}

#[test]
fn config_read_all_reads_a_map() {
    let map = Config::read_all_config(&Some(b"a=1\nb=2\na=3\n c = 4 \n".to_vec())).unwrap();
    assert_eq!(map, vec![pair("a", "3"), pair("b", "2"), pair("c", "4")]);
    assert_eq!(Config::read_all_config(&None), Ok(vec![]));
    assert_eq!(
        Config::read_config_file(&Some(b"a=1\na=3\n".to_vec()), "a"),
        Ok(Some("3".to_string()))
    );
    assert_eq!(Config::read_config_file(&None, "a"), Ok(None));
}

#[test]
fn config_list_marks_global_keys() {
    let c = Config::new(
        Some(b"user.name=R\nglobal.x=override\n".to_vec()),
        Some(b"user.name=G\nx=1\n".to_vec()),
    );
    assert_eq!(
        c.list(),
        Ok(vec![
            pair("global.user.name", "G"),
            pair("global.x", "override"),
            pair("user.name", "R"),
        ])
    );
}

#[test]
fn config_set_replaces_or_appends() {
    let mut c = Config::new(Some(b"a=1\nb=2\na=3\n".to_vec()), None);
    assert_eq!(c.set("b", "new", false), Ok("a=3\nb=new\n".to_string()));
    assert_eq!(c.repo_config, Some(b"a=3\nb=new\n".to_vec()));
    assert_eq!(c.global_config, None);
    assert_eq!(c.set("c", "x y", false), Ok("a=3\nb=new\nc=x y\n".to_string()));
    assert_eq!(c.get("c"), Ok(Some("x y".to_string())));
    assert_eq!(c.set("user.name", "G", true), Ok("user.name=G\n".to_string()));
    assert_eq!(c.global_config, Some(b"user.name=G\n".to_vec()));
    assert_eq!(c.get("user.name"), Ok(Some("G".to_string())));
}

#[test]
fn config_set_fails_on_a_file_that_is_not_text() {
    let mut c = Config::new(Some(vec![0xc0]), None);
    assert_eq!(c.set("a", "1", false), Err(RepoError::InvalidConfig));
    assert_eq!(c.repo_config, Some(vec![0xc0]));
    assert_eq!(c.set("a", "1", true), Ok("a=1\n".to_string()));
}

#[test]
fn config_write_renders_lines() {
    assert_eq!(Config::write_config(&vec![pair("a", "1"), pair("b", "")]), "a=1\nb=\n");
    assert_eq!(Config::write_config(&vec![]), "");
}

#[test]
fn config_command() {
    let mut c = sample();
    assert_eq!(
        config(&mut c, None, None, false, true),
        Ok(ConfigOutcome::Listed(vec![
            pair("global.user.name", "Global"),
            pair("global.user.email", "g@example.com"),
            pair("user.name", "Bea"),
            pair("core.x", "1=2"),
        ]))
    );
    assert_eq!(
        config(&mut c, Some("user.name".to_string()), None, false, false),
        Ok(ConfigOutcome::Value("Bea".to_string()))
    );
    assert_eq!(
        config(&mut c, Some("nope".to_string()), None, false, false),
        Err(RepoError::KeyNotFound)
    );
    assert_eq!(
        config(&mut c, None, Some("v".to_string()), false, false),
        Err(RepoError::MissingKey)
    );
    assert_eq!(RepoError::KeyNotFound.kind(), ErrorKind::InvalidInput);
    assert_eq!(RepoError::MissingKey.kind(), ErrorKind::InvalidInput);
    assert_eq!(
        config(&mut c, Some("k".to_string()), Some("v".to_string()), true, false),
        Ok(ConfigOutcome::Changed {
            key: "k".to_string(),
            value: "v".to_string(),
            content: "user.name=Global\nuser.email=g@example.com\nk=v\n".to_string(),
        })
    );
    assert_eq!(c.get("k"), Ok(Some("v".to_string())));
}

#[test]
fn ignore_patterns_are_normalized() {
    assert_eq!(normalize_pattern("target"), "**/target");
    assert_eq!(normalize_pattern("/target"), "target");
    assert_eq!(normalize_pattern("build/"), "**/build/**");
    assert_eq!(normalize_pattern("/build/"), "build/**");
    assert_eq!(normalize_pattern("*.log"), "**/*.log");
    assert_eq!(normalize_pattern("/"), "");
    assert_eq!(normalize_pattern(""), "**/**");
}

#[test]
fn ignore_candidates_come_from_the_lines() {
    assert_eq!(ignore_candidates(None), vec![".vcs/**".to_string(), ".vcs".to_string()]);
    assert_eq!(
        ignore_candidates(Some("# build output\n  target/ \n\n*.log\r\n/secret.txt")),
        vec![".vcs/**", ".vcs", "**/target/**", "**/*.log", "secret.txt"]
    );
}

#[test]
fn ignore_rules_always_cover_the_repository_directory() {
    let rules = IgnoreRules::load(None).unwrap();
    assert!(rules.should_ignore(".vcs"));
    assert!(rules.should_ignore(".vcs/HEAD"));
    assert!(rules.should_ignore(".vcs/objects/ab/cdef"));
    assert!(rules.should_ignore(".vcs\\index"));
    assert!(!rules.should_ignore("src/main.rs"));
    assert!(!rules.should_ignore(".vcsignore"));
}

#[test]
fn ignore_rules_follow_the_file() {
    let rules = IgnoreRules::load(Some("target/\n*.log\n/secret.txt\n[bad\n")).unwrap();
    assert!(rules.should_ignore("target/debug/app"));
    assert!(rules.should_ignore("sub/target/x"));
    assert!(rules.should_ignore("a/b/c.log"));
    assert!(rules.should_ignore("secret.txt"));
    assert!(!rules.should_ignore("sub/secret.txt"));
    assert!(!rules.should_ignore("src/lib.rs"));
}

#[test]
fn ignore_rules_from_compiled_patterns() {
    let texts = |list: &[&str]| list.iter().map(|p| p.to_string()).collect::<Vec<String>>();
    let fixed = texts(&[".vcs/**", ".vcs", "[bad", "*.log"]);
    assert!(IgnoreRules::from_compiled(&fixed, &vec![true, true, false, true]).is_ok());
    assert!(matches!(
        IgnoreRules::from_compiled(&fixed, &vec![true, false, true, true]),
        Err(RepoError::InvalidPattern)
    ));
    assert_eq!(RepoError::InvalidPattern.kind(), ErrorKind::InvalidInput);
    assert!(IgnoreRules::from_compiled(&fixed, &vec![false, true, true, true]).is_err());
    assert!(IgnoreRules::from_compiled(&fixed, &vec![true]).is_err());
    assert!(IgnoreRules::from_compiled(&texts(&[".vcs"]), &vec![true, true]).is_err());
    assert!(IgnoreRules::from_compiled(&Vec::new(), &Vec::new()).is_err());
    let sources = texts(&["a*", "b", "d", "c/**", "e"]);
    let rules = IgnoreRules::from_compiled(&sources, &vec![true, true, false, true]).unwrap();
    assert!(rules.should_ignore("abc"));
    assert!(rules.should_ignore("b"));
    assert!(rules.should_ignore("c/d"));
    assert!(!rules.should_ignore("d"));
    assert!(!rules.should_ignore("e"));
}

#[test]
fn ignore_rules_ask_about_the_path_both_ways() {
    let sources = vec!["x/**".to_string(), "y".to_string(), "a/b".to_string()];
    let rules = IgnoreRules::from_compiled(&sources, &vec![true, true, true]).unwrap();
    assert!(rules.should_ignore("a\\b"));
    assert!(rules.should_ignore("a/b"));
    assert!(!rules.should_ignore("a-b"));
    assert!(!rules.should_ignore(""));
    let none = IgnoreRules::from_compiled(&sources, &vec![true, true, false]).unwrap();
    assert!(!none.should_ignore("a/b"));
}

#[test]
fn one_yes_is_enough_to_ignore() {
    assert!(!vcs::ignore::ignored(&vec![]));
    assert!(!vcs::ignore::ignored(&vec![(false, false), (false, false)]));
    assert!(vcs::ignore::ignored(&vec![(false, false), (false, true)]));
    assert!(vcs::ignore::ignored(&vec![(true, false), (false, false)]));
}

fn reference_config(content: &str) -> std::collections::HashMap<String, String> {
    let mut map = std::collections::HashMap::new();
    for line in content.lines() {
        let line = line.trim();
        if line.is_empty() || line.starts_with('#') {
            continue;
        }
        if let Some((k, v)) = line.split_once('=') {
            map.insert(k.trim().to_string(), v.trim().to_string());
        }
    }
    map
}

#[test]
fn config_reading_agrees_with_a_plain_reading() {
    let samples = [
        "",
        "a=1",
        "a=1\n",
        "a = 1\r\nb=2\r\n",
        "#a=1\n a=2 \n=3\nb=\n==\nc\n",
        "k=v=w\nk=last\n\n\n x y = z  w \n",
        "caf\u{e9}=\u{1f600}\n",
    ];
    for content in samples {
        let expected = reference_config(content);
        let map = Config::read_all_config(&Some(content.as_bytes().to_vec())).unwrap();
        assert_eq!(map.len(), expected.len());
        for (k, v) in &map {
            assert_eq!(expected.get(k), Some(v));
        }
        for k in ["a", "b", "c", "k", "", "=", "x y", "caf\u{e9}"] {
            assert_eq!(
                Config::read_config_file(&Some(content.as_bytes().to_vec()), k).unwrap(),
                expected.get(k).cloned()
            );
        }
    }
}

#[test]
fn config_written_is_read_back() {
    let map = vec![pair("user.name", "Ann"), pair("user.email", "ann@example.com"), pair("x", "")];
    let text = Config::write_config(&map);
    assert_eq!(Config::read_all_config(&Some(text.into_bytes())), Ok(map));
}

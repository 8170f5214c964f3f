use btrfs_peek::names::{fold, free_name, host_name, partial_name, Host, NameSet};
use std::path::Path;

/// The traversal cases: these are what let a crafted image escape.
#[test]
fn traversal_names_become_one_harmless_component() {
    for host in [Host::Unix, Host::Windows] {
        for bad in ["..", ".", "/etc/passwd", "../../root", "a/b", "a\\b", "", "..."] {
            let got = host_name(bad, host);
            assert!(!got.contains('/'), "{bad:?} -> {got:?} kept a slash");
            assert!(!got.contains('\\'), "{bad:?} -> {got:?} kept a backslash");
            assert!(got != "." && got != "..", "{bad:?} -> {got:?} is navigation");
            let joined = Path::new("/base/out").join(&got);
            assert_eq!(
                joined.parent(),
                Some(Path::new("/base/out")),
                "{bad:?} -> {got:?} escaped the destination"
            );
        }
    }
}

#[test]
fn ordinary_names_are_untouched() {
    for ok in ["common.rs", "file.tar.gz", "ünïcödé", ".gitignore", "..hidden"] {
        assert_eq!(host_name(ok, Host::Unix), ok);
        assert_eq!(host_name(ok, Host::Windows), ok);
    }
}

#[test]
fn windows_only_rules_still_apply() {
    assert_eq!(host_name("a:b?.txt", Host::Windows), "a_b_.txt");
    assert_eq!(host_name("trailing.", Host::Windows), "trailing._");
    assert_eq!(host_name("nul.txt", Host::Windows), "_nul.txt");
    assert_eq!(host_name("COM1", Host::Windows), "_COM1");
    assert_eq!(host_name("CONIN$", Host::Windows), "_CONIN$");
}

#[test]
fn host_name_makes_linux_names_legal_on_windows() {
    assert_eq!(host_name("a:b?.txt", Host::Windows), "a_b_.txt");
    assert_eq!(host_name("trailing.", Host::Windows), "trailing._");
    assert_eq!(host_name("nul.txt", Host::Windows), "_nul.txt");
    assert_eq!(host_name("COM1", Host::Windows), "_COM1");
    assert_eq!(host_name("common.rs", Host::Windows), "common.rs");
}

#[test]
fn windows_rules_do_not_apply_elsewhere() {
    for name in ["a:b?.txt", "trailing.", "trailing ", "nul.txt", "COM1"] {
        assert_eq!(host_name(name, Host::Unix), name);
    }
}

#[test]
fn exact_names_for_odd_ones() {
    assert_eq!(host_name("", Host::Unix), "_");
    assert_eq!(host_name("..", Host::Unix), "_..");
    assert_eq!(host_name("..", Host::Windows), "_.._");
    assert_eq!(host_name("a\u{1}b\n", Host::Unix), "a_b_");
    assert_eq!(host_name("../../root", Host::Unix), ".._.._root");
    assert_eq!(host_name("conout$.log", Host::Windows), "_conout$.log");
    assert_eq!(host_name("Lpt9", Host::Windows), "_Lpt9");
    assert_eq!(host_name("lptx", Host::Windows), "lptx");
    assert_eq!(host_name("com10", Host::Windows), "com10");
    assert_eq!(host_name("con ", Host::Windows), "con _");
}

#[test]
fn a_safe_name_stays_as_it_is() {
    for host in [Host::Unix, Host::Windows] {
        for name in ["..", "a/b", "nul", "x.", "plain"] {
            let once = host_name(name, host);
            assert_eq!(host_name(&once, host), once);
        }
    }
}

#[test]
fn windows_folds_case() {
    assert_eq!(fold("ReadMe", Host::Unix), "ReadMe");
    assert_eq!(fold("ReadMe", Host::Windows), "readme");
    assert_eq!(fold("ÄÖ", Host::Windows), "äö");
}

#[test]
fn a_taken_name_gets_a_number() {
    let mut taken = NameSet::new();
    assert_eq!(free_name("a", &taken, Host::Unix), Some("a".to_string()));
    taken.insert("a".to_string());
    assert!(taken.contains(&"a".to_string()));
    assert!(!taken.contains(&"b".to_string()));
    assert_eq!(free_name("a", &taken, Host::Unix), Some("a~1".to_string()));
    assert_eq!(free_name("A", &taken, Host::Unix), Some("A".to_string()));
    assert_eq!(free_name("A", &taken, Host::Windows), Some("A~1".to_string()));
    taken.insert("a~1".to_string());
    assert_eq!(free_name("A", &taken, Host::Windows), Some("A~2".to_string()));
}

#[test]
fn a_set_of_many_names_keeps_them_all() {
    let mut set = NameSet::new();
    for i in 0..2000 {
        set.insert(format!("name{i}"));
    }
    for i in 0..2000 {
        assert!(set.contains(&format!("name{i}")));
    }
    assert!(!set.contains(&"name2000".to_string()));
}

#[test]
fn a_name_made_fit_stays_as_it_is() {
    for host in [Host::Unix, Host::Windows] {
        for name in ["..", "", "a/b", "nul.txt", "x. ", "COM1.a", "plain", "a:b|c"] {
            let once = host_name(name, host);
            assert_eq!(host_name(&once, host), once);
        }
    }
}

#[test]
fn temporary_names_get_numbers_too() {
    assert_eq!(partial_name("a"), "a.btrfs-peek-partial");
    let mut taken = NameSet::new();
    taken.insert("a.btrfs-peek-partial".to_string());
    assert_eq!(free_name("a", &taken, Host::Unix), Some("a".to_string()));
    assert_eq!(
        free_name(&partial_name("a"), &taken, Host::Unix),
        Some("a.btrfs-peek-partial~1".to_string())
    );
}

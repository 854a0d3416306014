use filecast::ConfigError;
use filecast::debounce::EventKind;
use filecast::watch::resolve_watch_paths;
use filecast::args::parse_args;
use filecast::paths::PathRep;
use filecast::paths::common_ancestor;
use filecast::paths::file_name;
use filecast::paths::parent;
use filecast::watch::WatchSet;
use filecast::watch::split_on_byte;

fn path(parts: &[&str]) -> PathRep {
    PathRep { components: parts.iter().map(|p| p.as_bytes().to_vec()).collect() }
}

#[test]
fn ancestor_of_shared_depth_two() {
    let paths = vec![
        path(&["home", "u", "proj", "a.txt"]),
        path(&["home", "u", "proj", "b.txt"]),
        path(&["home", "u", "other", "c.txt"]),
    ];
    let a = common_ancestor(&paths).unwrap();
    assert_eq!(a.components, path(&["home", "u"]).components);
}

#[test]
fn ancestor_of_same_directory() {
    let paths = vec![path(&["srv", "data", "x.bin"]), path(&["srv", "data", "y.bin"])];
    let a = common_ancestor(&paths).unwrap();
    assert_eq!(a.components, path(&["srv", "data"]).components);
}

#[test]
fn single_path_returns_immediate_parent() {
    let paths = vec![path(&["var", "log", "app.log"])];
    let a = common_ancestor(&paths).unwrap();
    assert_eq!(a.components, path(&["var", "log"]).components);
}

#[test]
fn no_paths_is_a_config_error() {
    let paths: Vec<PathRep> = Vec::new();
    match common_ancestor(&paths) {
        Err(e) => assert_eq!(e, ConfigError::NoPaths),
        Ok(_) => panic!("an empty watch set must be rejected"),
    }
}

#[test]
fn bare_root_is_its_own_parent() {
    let paths = vec![PathRep { components: Vec::new() }];
    let a = common_ancestor(&paths).unwrap();
    assert!(a.components.is_empty());
}

#[test]
fn divergence_at_root_gives_empty_ancestor() {
    let paths = vec![path(&["a", "x.txt"]), path(&["b", "y.txt"])];
    let a = common_ancestor(&paths).unwrap();
    assert!(a.components.is_empty());
}

#[test]
fn parent_and_file_name() {
    let p = path(&["home", "u", "f.txt"]);
    assert_eq!(parent(&p).components, path(&["home", "u"]).components);
    assert_eq!(file_name(&p).unwrap(), b"f.txt".to_vec());
    let empty = PathRep { components: Vec::new() };
    assert!(file_name(&empty).is_none());
}

#[test]
fn watch_membership_is_exact_not_prefix() {
    let ws = WatchSet { paths: vec![path(&["home", "u", "f.txt"])] };
    assert!(ws.contains(&path(&["home", "u", "f.txt"])));
    assert!(!ws.contains(&path(&["home", "u"])));
    assert!(!ws.contains(&path(&["home", "u", "f.txt", "deeper"])));
    assert!(!ws.contains(&path(&["home", "u", "g.txt"])));
}

#[test]
fn split_drops_empty_stretches() {
    let segs = split_on_byte(&b"/a//b/".to_vec(), b'/');
    assert_eq!(segs, vec![b"a".to_vec(), b"b".to_vec()]);
    let none = split_on_byte(&b"///".to_vec(), b'/');
    assert!(none.is_empty());
    let plain = split_on_byte(&b"abc".to_vec(), b'/');
    assert_eq!(plain, vec![b"abc".to_vec()]);
}

fn words(ws: &[&str]) -> Vec<Vec<u8>> {
    ws.iter().map(|w| w.as_bytes().to_vec()).collect()
}

#[test]
fn args_collect_files_after_flag() {
    let settings = parse_args(&words(&["-f", "a.txt", "b.txt"]));
    assert!(!settings.is_client);
    assert_eq!(settings.files_to_watch, words(&["a.txt", "b.txt"]));
    assert!(settings.transfer_to.is_none());
}

#[test]
fn args_other_flag_closes_file_list() {
    let settings = parse_args(&words(&["-f", "a.txt", "-v", "b.txt"]));
    assert_eq!(settings.files_to_watch, words(&["a.txt"]));
    assert!(!settings.is_client);
}

#[test]
fn args_client_word_selects_client_and_stops() {
    let settings = parse_args(&words(&["client", "-f", "a.txt"]));
    assert!(settings.is_client);
    assert!(settings.files_to_watch.is_empty());
}

#[test]
fn args_client_word_inside_file_list_is_a_file() {
    let settings = parse_args(&words(&["-f", "client"]));
    assert!(!settings.is_client);
    assert_eq!(settings.files_to_watch, words(&["client"]));
}

#[test]
fn args_words_outside_list_are_ignored() {
    let settings = parse_args(&words(&["stray", "-f", "a.txt"]));
    assert!(!settings.is_client);
    assert_eq!(settings.files_to_watch, words(&["a.txt"]));
}

#[test]
fn resolution_filters_events_by_exact_match() {
    let raw = vec![b"/srv/watched/a.txt".to_vec(), b"/srv/watched/b.txt".to_vec()];
    let resolved = resolve_watch_paths(&raw);
    assert_eq!(resolved.len(), 2);
    assert_eq!(resolved[0].components, vec![b"srv".to_vec(), b"watched".to_vec(), b"a.txt".to_vec()]);
    let ws = WatchSet { paths: resolved };
    let hit = ws.filter_event(&b"/srv/watched/a.txt".to_vec(), EventKind::Modify);
    let (p, k) = hit.expect("a watched path must pass the filter");
    assert_eq!(p.components, vec![b"srv".to_vec(), b"watched".to_vec(), b"a.txt".to_vec()]);
    assert_eq!(k, EventKind::Modify);
    assert!(ws.filter_event(&b"/srv/watched/c.txt".to_vec(), EventKind::Modify).is_none());
    assert!(ws.filter_event(&b"/srv/watched".to_vec(), EventKind::Modify).is_none());
}

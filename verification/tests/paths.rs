use kscr_types::{module_search_root_from_entry, PathPart};

fn path(s: &str) -> Vec<PathPart> {
    let mut out = Vec::new();
    if s.starts_with('/') {
        out.push(PathPart::Root("/".to_string()));
    }
    for piece in s.split('/').filter(|p| !p.is_empty()) {
        out.push(match piece {
            "." => PathPart::Cur,
            ".." => PathPart::Up,
            name => PathPart::Named(name.to_string()),
        });
    }
    out
}

#[test]
fn search_root_strips_module_directories() {
    let entry = path("/proj/src/Data/List/Extra.ks");
    assert_eq!(
        module_search_root_from_entry(&entry, Some("Data.List.Extra")),
        path("/proj/src")
    );
}

#[test]
fn search_root_falls_back_to_entry_directory() {
    let entry = path("/proj/src/Data/List/Extra.ks");
    assert_eq!(module_search_root_from_entry(&entry, None), path("/proj/src/Data/List"));
    assert_eq!(
        module_search_root_from_entry(&entry, Some("Other.Extra")),
        path("/proj/src/Data/List")
    );
    assert_eq!(
        module_search_root_from_entry(&entry, Some("List..Extra")),
        path("/proj/src/Data/List")
    );
    assert_eq!(
        module_search_root_from_entry(&entry, Some("")),
        path("/proj/src/Data/List")
    );
}

#[test]
fn search_root_of_single_segment_module() {
    let entry = path("app/Main.ks");
    assert_eq!(module_search_root_from_entry(&entry, Some("Main")), path("app"));
    let bare = path("Main.ks");
    assert_eq!(module_search_root_from_entry(&bare, Some("Main")), Vec::new());
}

#[test]
fn search_root_without_enough_parents_falls_back() {
    let entry = path("/B.ks");
    assert_eq!(module_search_root_from_entry(&entry, Some("A.B")), path("/"));
    assert_eq!(module_search_root_from_entry(&Vec::new(), None), vec![PathPart::Cur]);
}

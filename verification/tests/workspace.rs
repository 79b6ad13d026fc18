use loomd::workspace::{components_of, count_weights, extension_of, is_graph, skips, Workspace, WorkspaceError};

fn workspace() -> Workspace {
    Workspace::open("/srv/w", true, Ok("/srv/w".into())).unwrap()
}

#[test]
fn refuses_a_path_that_leaves_the_workspace() {
    let ws = workspace();
    for bad in ["../secrets.loom", "graphs/../../etc/passwd", "/etc/passwd"] {
        assert!(matches!(ws.resolve(bad), Err(WorkspaceError::Escapes(_))), "{bad} should not resolve");
    }
    // Climbing and coming back is fine: it stays inside.
    assert!(ws.resolve("graphs/../graphs/customer-triage.loom").is_ok());
}

#[test]
fn a_path_inside_resolves_against_the_root_and_reads_back_relative() {
    let ws = workspace();
    let path = ws.resolve("graphs/customer-triage.loom").unwrap();
    assert_eq!(path, "/srv/w/graphs/customer-triage.loom");
    assert_eq!(ws.relative(&path), "graphs/customer-triage.loom");
    assert_eq!(ws.relative("/elsewhere/x.loom"), "//elsewhere/x.loom");
    assert_eq!(ws.root(), "/srv/w");
}

#[test]
fn a_folder_that_is_not_one_says_so() {
    let err = Workspace::open("/nope", false, Err("unused".into())).err().unwrap();
    assert_eq!(err, WorkspaceError::NotAFolder("/nope".into()));
    assert_eq!(err.message(), "/nope is not a folder");
    let gone = Workspace::open("/gone", true, Err("No such file or directory".into())).err().unwrap();
    assert_eq!(gone.message(), "/gone: No such file or directory");
    assert_eq!(WorkspaceError::Escapes("../x".into()).message(), "`../x` leaves the workspace");
}

#[test]
fn components_are_read_the_way_a_path_reads_them() {
    assert_eq!(components_of("/a//b/./c/"), ["/", "a", "b", "c"]);
    assert_eq!(components_of("./a/../b"), [".", "a", "..", "b"]);
    assert!(components_of("").is_empty());
}

#[test]
fn graphs_and_weights_are_known_by_their_extensions() {
    assert!(is_graph("customer-triage.loom"));
    assert!(!is_graph(".loom"));
    assert!(!is_graph("notes.txt"));
    assert_eq!(extension_of("a.tar.gz").as_deref(), Some("gz"));
    assert_eq!(extension_of("README"), None);
    assert!(skips(".git") && skips("node_modules") && !skips("graphs"));
    let names: Vec<String> = ["yolo.onnx", "llama.gguf", "w.bin", "notes.md", ".onnx"].iter().map(|s| s.to_string()).collect();
    assert_eq!(count_weights(&names), 3);
}

/// What `resolve` gives reads back as what was asked, its empty and `.`
/// pieces left out.
#[test]
fn a_resolved_path_reads_back_as_the_request() {
    let ws = workspace();
    for (asked, known) in [
        ("graphs/customer-triage.loom", "graphs/customer-triage.loom"),
        ("./graphs//a.loom", "graphs/a.loom"),
        ("graphs/../graphs/b.loom", "graphs/../graphs/b.loom"),
    ] {
        let path = ws.resolve(asked).unwrap();
        assert_eq!(ws.relative(&path), known, "{asked}");
    }
    let slash = Workspace::open("/srv/w/", true, Ok("/srv/w/".into())).unwrap();
    let path = slash.resolve("a.loom").unwrap();
    assert_eq!(path, "/srv/w/a.loom");
    assert_eq!(slash.relative(&path), "a.loom");
}

/// Graphs are listed in the order `Path` sorts them: component by
/// component, so a folder comes before a sibling whose name it starts.
#[test]
fn graphs_are_listed_the_way_paths_sort() {
    let ws = workspace();
    let found: Vec<String> = ["/srv/w/b.loom", "/srv/w/a.b.loom", "/srv/w/a/x.loom", "/srv/w/a-b/z.loom"]
        .iter()
        .map(|s| s.to_string())
        .collect();
    assert_eq!(ws.graphs(found), ["/srv/w/a/x.loom", "/srv/w/a-b/z.loom", "/srv/w/a.b.loom", "/srv/w/b.loom"]);
    assert!(ws.graphs(Vec::new()).is_empty());
}

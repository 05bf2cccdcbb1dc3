use std::path::Path;

use repo_launcher::paths::{components_of, relocated_path, same_path};

fn std_components(p: &str) -> Vec<String> {
    Path::new(p)
        .components()
        .map(|c| c.as_os_str().to_string_lossy().into_owned())
        .collect()
}

#[test]
fn components_follow_std_on_unix() {
    let samples = [
        "", "/", "//", "/x", "/x/", "//x//", "/x/./y", "./x", ".", "./", ".x", "..", "../x",
        "x/..", "/./x", "x/./", "a//b/c/", "x/.", "/..", "./.", ". /x",
    ];
    for p in samples {
        let ours: Vec<String> = components_of(p).iter().map(|c| c.iter().collect()).collect();
        assert_eq!(ours, std_components(p), "components of {p:?}");
    }
}

#[test]
fn same_path_agrees_with_std_path_equality() {
    let samples = ["/x", "/x/", "//x", "/x/.", "/x/./", "x", "./x", "x/", "/x/y", "/x//y", "/y", ".", "", "./"];
    for a in samples {
        for b in samples {
            assert_eq!(same_path(a, b), Path::new(a) == Path::new(b), "{a:?} vs {b:?}");
        }
    }
}

fn std_relocated(repo: &str, old: &str, new: &str) -> Option<String> {
    Path::new(repo)
        .strip_prefix(old)
        .ok()
        .map(|rel| Path::new(new).join(rel).display().to_string())
}

#[test]
fn relocated_path_agrees_with_strip_prefix_and_join() {
    let repos = ["/p/api", "/p/api/", "/p//web/./app", "/p", "/p/", "/q/api", "/pp/api", "/p/a/../b", "rel/x", "./rel/x", "/"];
    let olds = ["/p", "/p/", "//p", "/p/.", "/", "", "rel", ".", "/p/api", "/q"];
    let news = ["/n", "/n/", "", "n", "/"];
    for repo in repos {
        for old in olds {
            for new in news {
                assert_eq!(
                    relocated_path(repo, old, new),
                    std_relocated(repo, old, new),
                    "{repo:?} from {old:?} to {new:?}"
                );
            }
        }
    }
}

#[test]
fn relocated_path_keeps_the_relative_layout() {
    assert_eq!(relocated_path("/old/root/api", "/old/root", "/new/root").as_deref(), Some("/new/root/api"));
    assert_eq!(relocated_path("/elsewhere/api", "/old/root", "/new/root"), None);
    assert_eq!(relocated_path("/old/rootx/api", "/old/root", "/new/root"), None);
}

use caseproxy::serve::serve_decision;
use caseproxy::serve::ServeDecision;
use caseproxy::serve::ServeMode;
use caseproxy::Component;

fn comps(s: &str) -> Vec<Component> {
    let mut v: Vec<Component> = Vec::new();
    if s.starts_with('/') {
        v.push(Component::RootDir);
    }
    for seg in s.split('/') {
        if seg.is_empty() || seg == "." || seg == ".." {
            continue;
        }
        v.push(Component::Normal(seg.as_bytes().to_vec()));
    }
    v
}

#[test]
fn an_empty_match_set_is_not_found() {
    let matches: Vec<Vec<Component>> = vec![];
    let d = serve_decision(&matches, &comps("/srv"), ServeMode::Direct);
    assert!(matches!(d, ServeDecision::NotFound));
}

#[test]
fn the_first_match_wins_and_is_served() {
    let found = vec![comps("/srv/a.txt"), comps("/srv/A.txt")];
    let d = serve_decision(&found, &comps("/srv"), ServeMode::Direct);
    match d {
        ServeDecision::Serve(p) => assert_eq!(p, comps("/srv/a.txt")),
        other => panic!("unexpected decision {other:?}"),
    }
}

#[test]
fn a_match_outside_the_root_is_forbidden() {
    let found = vec![comps("/elsewhere/a.txt")];
    let d = serve_decision(&found, &comps("/srv"), ServeMode::Direct);
    assert!(matches!(d, ServeDecision::Forbidden));
}

#[test]
fn sendfile_mode_hands_back_the_full_path() {
    let found = vec![comps("/srv/sub/a.txt")];
    let d = serve_decision(&found, &comps("/srv"), ServeMode::Sendfile);
    match d {
        ServeDecision::Sendfile(p) => assert_eq!(p, comps("/srv/sub/a.txt")),
        other => panic!("unexpected decision {other:?}"),
    }
}

#[test]
fn redirect_mode_hands_back_the_root_relative_path() {
    let found = vec![comps("/srv/sub/a.txt")];
    let d = serve_decision(&found, &comps("/srv"), ServeMode::NginxRedirect);
    match d {
        ServeDecision::Redirect(p) => assert_eq!(p, comps("sub/a.txt")),
        other => panic!("unexpected decision {other:?}"),
    }
}

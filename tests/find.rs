use dotenv_build::{candidates, find_internal, find_step, Error, Probe, Step};

fn path(parts: &[&str]) -> Vec<String> {
    parts.iter().map(|p| p.to_string()).collect()
}

#[test]
fn step_found_on_a_file() {
    assert_eq!(find_step(Probe::File, false, false), Step::Found);
    assert_eq!(find_step(Probe::File, true, true), Step::Found);
}

#[test]
fn step_ascends_only_when_recursive_with_a_parent() {
    assert_eq!(find_step(Probe::Missing, true, true), Step::Ascend);
    assert_eq!(find_step(Probe::NotFile, true, true), Step::Ascend);
    assert_eq!(find_step(Probe::Missing, false, true), Step::Stop(Error::NotFound));
    assert_eq!(find_step(Probe::Missing, true, false), Step::Stop(Error::NotFound));
    assert_eq!(find_step(Probe::NotFile, false, true), Step::Stop(Error::NotFound));
}

#[test]
fn step_stops_on_a_failure() {
    assert_eq!(
        find_step(Probe::Failed("denied".to_string()), true, true),
        Step::Stop(Error::Io("denied".to_string()))
    );
}

#[test]
fn recursive_search_finds_file_at_any_depth() {
    let probes = vec![Probe::Missing, Probe::NotFile, Probe::File, Probe::Missing];
    assert_eq!(find_internal(&probes, true), Ok(2));
    let probes = vec![Probe::File, Probe::File];
    assert_eq!(find_internal(&probes, true), Ok(0));
    let probes = vec![Probe::Missing, Probe::Missing, Probe::Missing, Probe::File];
    assert_eq!(find_internal(&probes, true), Ok(3));
}

#[test]
fn non_recursive_search_only_looks_at_the_start() {
    let probes = vec![Probe::File, Probe::Missing];
    assert_eq!(find_internal(&probes, false), Ok(0));
    let probes = vec![Probe::Missing, Probe::File];
    assert_eq!(find_internal(&probes, false), Err(Error::NotFound));
}

#[test]
fn search_reaching_the_root_is_not_found() {
    let probes = vec![Probe::Missing, Probe::NotFile, Probe::Missing];
    assert_eq!(find_internal(&probes, true), Err(Error::NotFound));
    assert_eq!(find_internal(&vec![], true), Err(Error::NotFound));
}

#[test]
fn io_error_halts_the_search() {
    let probes = vec![Probe::Missing, Probe::Failed("permission denied".to_string()), Probe::File];
    assert_eq!(find_internal(&probes, true), Err(Error::Io("permission denied".to_string())));
}

#[test]
fn candidates_walk_up_to_the_root() {
    let dir = path(&["/", "home", "user"]);
    let name = path(&[".env"]);
    assert_eq!(
        candidates(&dir, &name),
        vec![
            path(&["/", "home", "user", ".env"]),
            path(&["/", "home", ".env"]),
            path(&["/", ".env"]),
        ]
    );
}

#[test]
fn candidates_never_include_siblings_or_children() {
    let dir = path(&["/", "work", "project"]);
    let name = path(&[".env"]);
    let all = candidates(&dir, &name);
    assert!(!all.contains(&path(&["/", "work", "other", ".env"])));
    assert!(!all.contains(&path(&["/", "work", "project", "sub", ".env"])));
    assert!(all.contains(&path(&["/", "work", ".env"])));
}

use mekle::dependencies::Dependencies;
use mekle::error::Error;
use mekle::path::PathName;
use std::cell::RefCell;

#[test]
fn the_first_program_found_is_used() {
    let lookup = |name: &str| (name == "fdfind").then(|| "/usr/bin/fdfind".to_owned());

    let deps = Dependencies::check(&lookup).expect("fdfind was found");

    assert_eq!(deps.fd_path.to_text(), "/usr/bin/fdfind");
}

#[test]
fn fd_is_preferred_and_fdfind_is_then_not_looked_up() {
    let asked = RefCell::new(Vec::new());
    let lookup = |name: &str| {
        asked.borrow_mut().push(name.to_owned());
        Some(format!("/opt/{name}"))
    };

    let deps = Dependencies::check(&lookup).expect("fd was found");

    assert_eq!(deps.fd_path.to_text(), "/opt/fd");
    assert_eq!(*asked.borrow(), ["fd"]);
}

#[test]
fn a_missing_program_names_what_to_install() {
    let asked = RefCell::new(Vec::new());
    let lookup = |name: &str| -> Option<String> {
        asked.borrow_mut().push(name.to_owned());
        None
    };

    let outcome = Dependencies::check(&lookup);

    assert!(matches!(
        outcome,
        Err(Error::DependencyNotFound { name, url }) if name == "fd (or fdfind)" && url == "https://github.com/sharkdp/fd"
    ));
    assert_eq!(*asked.borrow(), ["fd", "fdfind"]);
}

#[test]
fn dependencies_keep_the_given_path() {
    assert_eq!(Dependencies::new(PathName::parse("/bin/fd")).fd_path.to_text(), "/bin/fd");
}

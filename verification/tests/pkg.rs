//! Cargo dependency tables derived from package manifests.

use augur::pkg::{Dependency, Manifest, PackageMeta};

fn sample() -> Manifest {
    Manifest {
        modules: vec!["bayes/regression.augur".to_string(), "bayes/forecast.augur".to_string()],
        package: PackageMeta {
            name: "my-model".to_string(),
            version: "0.1.0".to_string(),
            authors: vec!["A. Student".to_string()],
            description: Some("A Bayesian regression package".to_string()),
        },
        dependencies: vec![
            (
                "gpu-kernel".to_string(),
                Dependency {
                    version: "1.0".to_string(),
                    git: Some("https://github.com/PhillipC05/tpt-gpu".to_string()),
                    path: None,
                },
            ),
            (
                "stdlib".to_string(),
                Dependency { version: "0.1".to_string(), git: None, path: Some("../stdlib/tpt-augur-std".to_string()) },
            ),
        ],
    }
}

#[test]
fn pkg_renders_cargo_dependencies() {
    let deps = sample().to_cargo_deps();
    assert!(deps.starts_with("[dependencies]\n"));
    assert!(deps.contains("stdlib = { version = \"0.1\", path = \"../stdlib/tpt-augur-std\" }"));
    assert!(deps.contains("git = \"https://github.com/PhillipC05/tpt-gpu\""));
}

#[test]
fn cargo_dependencies_exact_text() {
    let deps = sample().to_cargo_deps();
    assert_eq!(
        deps,
        "[dependencies]\ngpu-kernel = { version = \"1.0\", git = \"https://github.com/PhillipC05/tpt-gpu\" }\nstdlib = { version = \"0.1\", path = \"../stdlib/tpt-augur-std\" }\n"
    );
}

#[test]
fn cargo_dependencies_escape_quotes() {
    let mut m = sample();
    m.dependencies = vec![("q".to_string(), Dependency { version: "a\"b".to_string(), git: None, path: None })];
    assert_eq!(m.to_cargo_deps(), "[dependencies]\nq = { version = \"a\\\"b\" }\n");
}

use jabu::error::{RepositoryOperationError, UrlError};
use jabu::remote::{artifact_segments, check_segment, is_legal_in_segment};
use jabu::repository::{Artifact, RemoteRepository, Repository};
use std::path::PathBuf;

fn sample_artifact() -> Artifact {
    Artifact::new("org.junit.jupiter", "junit-jupiter-api", "5.10.2")
}

fn create_temp_repository() -> std::io::Result<Repository> {
    let tmp_dir = tempdir::TempDir::new("jaburepository")?
        .path()
        .to_path_buf();
    Ok(Repository::new(&tmp_dir.to_string_lossy()))
}

#[test]
fn jar_artifact_path_forming() {
    let repo = create_temp_repository().unwrap();
    let artifact = Artifact {
        group_id: "group".to_string(),
        artifact_id: "artifact".to_string(),
        version: "1.0.0".to_string(),
    };

    let jar_path = PathBuf::from(repo.artifact_jar_path(&artifact));
    let expected = PathBuf::from(repo.base_path())
        .join(artifact.group_id)
        .join(artifact.artifact_id)
        .join(artifact.version + ".jar");

    assert_eq!(expected, jar_path);
}

#[test]
fn base_artifact_url() {
    let remote_repository = RemoteRepository::default();
    let expected = "https://repo1.maven.org/maven2/org/junit/jupiter/junit-jupiter-api/5.10.2/junit-jupiter-api-5.10.2";

    assert_eq!(
        expected,
        remote_repository
            .artifact_url(&sample_artifact())
            .unwrap()
            .as_str()
    )
}

#[test]
fn new_artifact_keeps_its_fields() {
    let artifact = sample_artifact();
    assert_eq!(artifact.group_id, "org.junit.jupiter");
    assert_eq!(artifact.artifact_id, "junit-jupiter-api");
    assert_eq!(artifact.version, "5.10.2");
}

#[test]
fn artifacts_are_equal_when_all_fields_are() {
    assert_eq!(sample_artifact(), sample_artifact().clone());
    assert_ne!(
        sample_artifact(),
        Artifact::new("org.junit.jupiter", "junit-jupiter-api", "5.10.3")
    );
    assert_ne!(
        sample_artifact(),
        Artifact::new("org.junit.Jupiter", "junit-jupiter-api", "5.10.2")
    );
    assert_ne!(
        sample_artifact(),
        Artifact::new("org.junit.jupiter", "junit-jupiter", "5.10.2")
    );
}

#[test]
fn local_paths_of_the_sample_artifact() {
    let repo = Repository::new("/repo");
    assert_eq!(repo.base_path(), "/repo");
    assert_eq!(
        repo.artifact_as_dirname(&sample_artifact()),
        "/repo/org/junit/jupiter/junit-jupiter-api"
    );
    assert_eq!(
        repo.artifact_jar_path(&sample_artifact()),
        "/repo/org/junit/jupiter/junit-jupiter-api/5.10.2.jar"
    );
    assert_eq!(
        repo.artifact_pom_path(&sample_artifact()),
        "/repo/org/junit/jupiter/junit-jupiter-api/5.10.2.pom"
    );
}

#[test]
fn jar_and_pom_are_siblings() {
    let repo = Repository::new("/repo");
    let artifact = Artifact::new("a.b", "c", "1.0/rc");
    let jar = repo.artifact_jar_path(&artifact);
    let pom = repo.artifact_pom_path(&artifact);
    assert_eq!(jar, "/repo/a/b/c/1.0/rc.jar");
    assert_eq!(pom, "/repo/a/b/c/1.0/rc.pom");
    assert_eq!(jar.rsplit_once('/').unwrap().0, pom.rsplit_once('/').unwrap().0);
    assert_eq!(jar.strip_suffix(".jar"), pom.strip_suffix(".pom"));
}

#[test]
fn the_suffix_is_appended_to_any_version() {
    let repo = Repository::new("/repo");
    assert_eq!(
        repo.artifact_jar_path(&Artifact::new("g", "a", "5")),
        "/repo/g/a/5.jar"
    );
    assert_eq!(
        repo.artifact_pom_path(&Artifact::new("g", "a", "6.4.4.Final")),
        "/repo/g/a/6.4.4.Final.pom"
    );
    assert_eq!(repo.artifact_jar_path(&Artifact::new("g", "a", "")), "/repo/g/a/.jar");
}

#[test]
fn the_root_takes_no_second_separator() {
    let artifact = Artifact::new("g.h", "a", "1");
    assert_eq!(Repository::new("/repo/").artifact_jar_path(&artifact), "/repo/g/h/a/1.jar");
    assert_eq!(Repository::new("").artifact_jar_path(&artifact), "g/h/a/1.jar");
    assert_eq!(Repository::new("/").artifact_as_dirname(&artifact), "/g/h/a");
    assert_eq!(Repository::new("repo").artifact_as_dirname(&artifact), "repo/g/h/a");
}

#[test]
fn empty_pieces_of_the_group_stay_in_the_path() {
    let repo = Repository::new("/repo");
    assert_eq!(
        repo.artifact_as_dirname(&Artifact::new("a..b", "c", "1")),
        "/repo/a//b/c"
    );
    assert_eq!(repo.artifact_as_dirname(&Artifact::new("", "c", "1")), "/repo//c");
}

#[test]
fn repository_in_the_home_directory() {
    assert_eq!(Repository::in_home("/home/me").base_path(), "/home/me/./repo");
    assert_eq!(Repository::in_home("/home/me/").base_path(), "/home/me/./repo");
    assert_eq!(Repository::in_home("").base_path(), "./repo");
}

#[test]
fn jar_url_of_the_sample_artifact() {
    let remote = RemoteRepository::new("https://repo1.maven.org/");
    assert_eq!(
        remote.jar_artifact_url(&sample_artifact()).unwrap(),
        "https://repo1.maven.org/maven2/org/junit/jupiter/junit-jupiter-api/5.10.2/junit-jupiter-api-5.10.2.jar"
    );
}

#[test]
fn pom_url_of_the_sample_artifact() {
    let remote = RemoteRepository::default();
    assert_eq!(remote.remote_url, "https://repo1.maven.org/");
    assert_eq!(
        remote.pom_artifact_url(&sample_artifact()).unwrap(),
        "https://repo1.maven.org/maven2/org/junit/jupiter/junit-jupiter-api/5.10.2/junit-jupiter-api-5.10.2.pom"
    );
}

#[test]
fn the_base_endpoint_is_parsed() {
    let remote = RemoteRepository::new("HTTPS://Example.COM:443/mirror/");
    assert_eq!(
        remote.artifact_url(&Artifact::new("g", "a", "1")).unwrap(),
        "https://example.com/mirror/maven2/g/a/1/a-1"
    );
}

#[test]
fn the_layout_segment_is_joined_not_appended() {
    let remote = RemoteRepository::new("https://example.com/mirror/index.html");
    assert_eq!(
        remote.jar_artifact_url(&Artifact::new("g", "a", "1")).unwrap(),
        "https://example.com/mirror/maven2/g/a/1/a-1.jar"
    );
}

#[test]
fn segments_of_a_coordinate() {
    assert_eq!(
        artifact_segments(&sample_artifact()).unwrap(),
        vec![
            "org".to_string(),
            "junit".to_string(),
            "jupiter".to_string(),
            "junit-jupiter-api".to_string(),
            "5.10.2".to_string(),
            "junit-jupiter-api-5.10.2".to_string(),
        ]
    );
}

#[test]
fn an_empty_piece_of_the_group_is_refused() {
    let remote = RemoteRepository::default();
    for group in [".org", "org.", "org..junit", ""] {
        let artifact = Artifact::new(group, "a", "1");
        assert!(matches!(remote.artifact_url(&artifact), Err(UrlError::EmptySegment)));
        assert!(matches!(remote.jar_artifact_url(&artifact), Err(UrlError::EmptySegment)));
        assert!(matches!(remote.pom_artifact_url(&artifact), Err(UrlError::EmptySegment)));
    }
    assert!(matches!(
        remote.artifact_url(&Artifact::new("g", "", "1")),
        Err(UrlError::EmptySegment)
    ));
    assert!(matches!(
        remote.artifact_url(&Artifact::new("g", "a", "")),
        Err(UrlError::EmptySegment)
    ));
}

#[test]
fn a_dot_segment_is_refused() {
    let remote = RemoteRepository::default();
    assert!(matches!(
        remote.artifact_url(&Artifact::new("g", "..", "1")),
        Err(UrlError::DotSegment)
    ));
    assert!(matches!(
        remote.artifact_url(&Artifact::new("g", "a", ".")),
        Err(UrlError::DotSegment)
    ));
    assert!(remote.artifact_url(&Artifact::new("g", "...", "1")).is_ok());
}

#[test]
fn an_illegal_character_is_refused() {
    let remote = RemoteRepository::default();
    for field in ["a b", "a/b", "a%20b", "a?b", "a#b", "caf\u{e9}", "a\\b", "a\"b", "a\tb"] {
        assert!(matches!(
            remote.artifact_url(&Artifact::new("g", field, "1")),
            Err(UrlError::IllegalCharacter)
        ));
        assert!(matches!(
            remote.artifact_url(&Artifact::new("g", "a", field)),
            Err(UrlError::IllegalCharacter)
        ));
    }
    assert!(matches!(
        remote.artifact_url(&Artifact::new("org.j unit", "a", "1")),
        Err(UrlError::IllegalCharacter)
    ));
}

#[test]
fn the_first_faulty_segment_decides() {
    let remote = RemoteRepository::default();
    assert!(matches!(
        remote.artifact_url(&Artifact::new("a b..c", "", "..")),
        Err(UrlError::IllegalCharacter)
    ));
    assert!(matches!(
        remote.artifact_url(&Artifact::new("a", "..", "")),
        Err(UrlError::DotSegment)
    ));
    assert!(matches!(
        RemoteRepository::new("no endpoint").artifact_url(&Artifact::new("a", "b c", "1")),
        Err(UrlError::IllegalCharacter)
    ));
}

#[test]
fn a_base_endpoint_that_is_no_url_is_refused() {
    let artifact = sample_artifact();
    assert!(matches!(
        RemoteRepository::new("no endpoint").artifact_url(&artifact),
        Err(UrlError::Rejected(_))
    ));
    assert!(matches!(
        RemoteRepository::new("").jar_artifact_url(&artifact),
        Err(UrlError::Rejected(_))
    ));
    assert!(matches!(
        RemoteRepository::new("mailto:me@example.com").pom_artifact_url(&artifact),
        Err(UrlError::Rejected(_))
    ));
}

#[test]
fn legal_characters() {
    for c in "azAZ09-._~!$&'()*+,;=:@".chars() {
        assert!(is_legal_in_segment(c));
    }
    for c in " /\\?#%\"<>[]^`{|}\u{7f}\u{e9}\n".chars() {
        assert!(!is_legal_in_segment(c));
    }
}

#[test]
fn faults_of_one_segment() {
    assert!(check_segment("junit-jupiter-api").is_none());
    assert!(check_segment("5.10.2").is_none());
    assert!(matches!(check_segment(""), Some(UrlError::EmptySegment)));
    assert!(matches!(check_segment("."), Some(UrlError::DotSegment)));
    assert!(matches!(check_segment(".."), Some(UrlError::DotSegment)));
    assert!(matches!(check_segment(". "), Some(UrlError::IllegalCharacter)));
    assert!(check_segment(".a").is_none());
}

#[test]
fn plan_of_a_download() {
    let repo = Repository::new("/repo");
    let plan = repo
        .download_plan(&sample_artifact(), &RemoteRepository::default())
        .unwrap();
    assert_eq!(
        plan.pom_url,
        "https://repo1.maven.org/maven2/org/junit/jupiter/junit-jupiter-api/5.10.2/junit-jupiter-api-5.10.2.pom"
    );
    assert_eq!(
        plan.jar_url,
        "https://repo1.maven.org/maven2/org/junit/jupiter/junit-jupiter-api/5.10.2/junit-jupiter-api-5.10.2.jar"
    );
    assert_eq!(plan.directory, "/repo/org/junit/jupiter/junit-jupiter-api");
    assert_eq!(plan.jar_path, "/repo/org/junit/jupiter/junit-jupiter-api/5.10.2.jar");
    assert_eq!(plan.pom_path, "/repo/org/junit/jupiter/junit-jupiter-api/5.10.2.pom");
}

#[test]
fn no_plan_for_an_invalid_coordinate() {
    let repo = Repository::new("/repo");
    let outcome = repo.download_plan(
        &Artifact::new("org..junit", "a", "1"),
        &RemoteRepository::default(),
    );
    assert!(matches!(
        outcome,
        Err(RepositoryOperationError::InvalidArtifactName(UrlError::EmptySegment))
    ));
}

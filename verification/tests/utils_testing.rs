use jabu::error::{ManifestError, Part};
use jabu::manifest::{dependencies_in_tokens, significant_tokens};
use jabu::markup::Token;
use jabu::repository::Artifact;
use jabu::utils::{dependencies_in_pom, is_white, trim_xml_file};

const SAMPLE_VALID_POM: &'static str = r#"
<?xml version="1.0" encoding="UTF-8"?>
<project xmlns="http://maven.apache.org/POM/4.0.0" xmlns:xsi="http://www.w3.org/2001/XMLSchema-instance" xsi:schemaLocation="http://maven.apache.org/POM/4.0.0 http://maven.apache.org/xsd/maven-4.0.0.xsd">
    <modelVersion>4.0.0</modelVersion>
    <groupId>me.folgue</groupId>
    <artifactId>adt_tar4</artifactId>
    <version>1.0-SNAPSHOT</version>
    <packaging>jar</packaging>
    <properties>
        <project.build.sourceEncoding>UTF-8</project.build.sourceEncoding>
        <maven.compiler.source>17</maven.compiler.source>
        <maven.compiler.target>17</maven.compiler.target>
        <exec.mainClass>me.folgue.adt_tar4.utils.CLI</exec.mainClass>
    </properties>

    <dependencies>
        <dependency>
            <groupId>org.mariadb.jdbc</groupId>
            <artifactId>mariadb-java-client</artifactId>
            <version>3.3.3</version>
        </dependency>
        <dependency>
            <groupId>org.hibernate.orm</groupId>
            <artifactId>hibernate-core</artifactId>
            <version>6.4.4.Final</version>
        </dependency>
        <dependency>
            <groupId>org.junit.jupiter</groupId>
            <artifactId>junit-jupiter</artifactId>
            <version>5.10.0</version>
        </dependency>
    </dependencies>
</project>
"#;

#[test]
fn testing_dependencies_from_pom() {
    let expected = vec![
        Artifact {
            artifact_id: "mariadb-java-client".to_string(),
            group_id: "org.mariadb.jdbc".to_string(),
            version: "3.3.3".to_string(),
        },
        Artifact {
            artifact_id: "hibernate-core".to_string(),
            group_id: "org.hibernate.orm".to_string(),
            version: "6.4.4.Final".to_string(),
        },
        Artifact {
            artifact_id: "junit-jupiter".to_string(),
            group_id: "org.junit.jupiter".to_string(),
            version: "5.10.0".to_string(),
        }
    ];

    assert_eq!(expected, dependencies_in_pom(SAMPLE_VALID_POM).unwrap())
}

fn artifact(group_id: &str, artifact_id: &str, version: &str) -> Artifact {
    Artifact::new(group_id, artifact_id, version)
}

fn open(name: &str) -> Token {
    Token::Open(name.to_string())
}

fn text(content: &str) -> Token {
    Token::Text(content.to_string())
}

fn entry(group_id: &str, artifact_id: &str, version: &str) -> Vec<Token> {
    vec![
        open("dependency"),
        open("groupId"),
        text(group_id),
        Token::Close,
        open("artifactId"),
        text(artifact_id),
        Token::Close,
        open("version"),
        text(version),
        Token::Close,
        Token::Close,
    ]
}

fn document(entries: Vec<Vec<Token>>) -> Vec<Token> {
    let mut tokens = vec![Token::Other, open("project"), open("dependencies")];
    for tokens_of_entry in entries {
        tokens.extend(tokens_of_entry);
    }
    tokens.extend([Token::Close, Token::Close, Token::Other]);
    tokens
}

const TWO_DEPENDENCIES: &str = "<project>\n<dependencies>\n<dependency><groupId>g</groupId><artifactId>a</artifactId><version>1</version></dependency>\n<dependency><groupId>h.i</groupId><artifactId>b</artifactId><version>2.0</version></dependency>\n</dependencies>\n</project>\n";

#[test]
fn the_declaration_line_is_taken_away() {
    assert_eq!(trim_xml_file("<?xml version=\"1.0\"?>\n<project/>"), "<project/>");
    assert_eq!(trim_xml_file(" \n\t<?xml version=\"1.0\"?>\n<project/>\n"), "<project/>\n");
    assert_eq!(trim_xml_file("\u{a0}\u{3000}<?xml?>\r\n<a/>"), "<a/>");
    assert_eq!(trim_xml_file("<?xml version=\"1.0\"?><project/>"), "");
    assert_eq!(trim_xml_file("<?xml"), "");
    assert_eq!(trim_xml_file("<?xml\n"), "");
}

#[test]
fn other_text_is_left_as_it_is() {
    assert_eq!(trim_xml_file("<project/>"), "<project/>");
    assert_eq!(trim_xml_file("  \n<project/>\n"), "  \n<project/>\n");
    assert_eq!(trim_xml_file(""), "");
    assert_eq!(trim_xml_file("   "), "   ");
    assert_eq!(trim_xml_file("<?xm\nl"), "<?xm\nl");
    assert_eq!(trim_xml_file("<?XML version=\"1.0\"?>\n<a/>"), "<?XML version=\"1.0\"?>\n<a/>");
    assert_eq!(trim_xml_file("x<?xml?>\n<a/>"), "x<?xml?>\n<a/>");
}

#[test]
fn white_space() {
    for c in " \t\n\r\u{b}\u{c}\u{85}\u{a0}\u{1680}\u{2000}\u{200a}\u{2028}\u{2029}\u{202f}\u{205f}\u{3000}".chars() {
        assert!(is_white(c));
        assert!(c.is_whitespace());
    }
    for c in "a<\u{8}\u{e}\u{1f}\u{200b}\u{feff}\u{2060}".chars() {
        assert!(!is_white(c));
        assert!(!c.is_whitespace());
    }
}

#[test]
fn a_manifest_parses_with_and_without_its_declaration() {
    let expected = vec![artifact("g", "a", "1"), artifact("h.i", "b", "2.0")];
    assert_eq!(dependencies_in_pom(TWO_DEPENDENCIES).unwrap(), expected);
    let declared = format!("<?xml version=\"1.0\" encoding=\"UTF-8\"?>\n{}", TWO_DEPENDENCIES);
    assert_eq!(dependencies_in_pom(&declared).unwrap(), expected);
    let indented = format!("\n  <?xml version=\"1.0\"?>\n{}", TWO_DEPENDENCIES);
    assert_eq!(dependencies_in_pom(&indented).unwrap(), expected);
}

#[test]
fn entries_come_in_the_order_of_the_document() {
    let found = dependencies_in_pom(SAMPLE_VALID_POM).unwrap();
    assert_eq!(found.len(), 3);
    assert_eq!(found[0].artifact_id, "mariadb-java-client");
    assert_eq!(found[1].artifact_id, "hibernate-core");
    assert_eq!(found[2].artifact_id, "junit-jupiter");
}

#[test]
fn a_manifest_without_dependencies_is_an_error() {
    let outcome = dependencies_in_pom("<project><groupId>g</groupId></project>");
    assert!(matches!(outcome, Err(ManifestError::Missing(Part::Dependencies))));
    let outcome = dependencies_in_pom("<project/>");
    assert!(matches!(outcome, Err(ManifestError::Missing(Part::Dependencies))));
    let outcome = dependencies_in_pom(
        "<project><build><dependencies><dependency/></dependencies></build></project>",
    );
    assert!(matches!(outcome, Err(ManifestError::Missing(Part::Dependencies))));
}

#[test]
fn an_empty_list_of_dependencies_is_no_error() {
    assert_eq!(
        dependencies_in_pom("<project><dependencies/></project>").unwrap(),
        Vec::new()
    );
    assert_eq!(
        dependencies_in_pom("<project><dependencies>\n</dependencies></project>").unwrap(),
        Vec::new()
    );
}

#[test]
fn two_lists_of_dependencies_are_an_error() {
    let outcome =
        dependencies_in_pom("<project><dependencies/><name>n</name><dependencies/></project>");
    assert!(matches!(outcome, Err(ManifestError::Repeated(Part::Dependencies))));
}

#[test]
fn text_that_is_no_document_is_an_error() {
    for manifest in ["", "no markup", "<project>", "<project></other>", "<project><dependencies></project>"] {
        assert!(matches!(dependencies_in_pom(manifest), Err(ManifestError::Malformed(_))));
    }
}

#[test]
fn a_second_root_is_an_error() {
    let manifest = "<project><dependencies/></project><project/>";
    assert!(matches!(dependencies_in_pom(manifest), Err(ManifestError::NotADocument)));
}

#[test]
fn a_dependency_needs_each_field_once() {
    let cases = [
        ("<artifactId>a</artifactId><version>1</version>", Part::GroupId),
        ("<groupId>g</groupId><version>1</version>", Part::ArtifactId),
        ("<groupId>g</groupId><artifactId>a</artifactId>", Part::Version),
        ("", Part::GroupId),
    ];
    for (fields, part) in cases {
        let manifest = format!(
            "<project><dependencies><dependency>{}</dependency></dependencies></project>",
            fields
        );
        match dependencies_in_pom(&manifest) {
            Err(ManifestError::Missing(missing)) => assert_eq!(missing, part),
            other => panic!("{:?}", other),
        }
    }
    let cases = [
        ("<groupId>g</groupId><groupId>g</groupId><artifactId>a</artifactId><version>1</version>", Part::GroupId),
        ("<groupId>g</groupId><artifactId>a</artifactId><version>1</version><artifactId>a</artifactId>", Part::ArtifactId),
        ("<version>1</version><groupId>g</groupId><artifactId>a</artifactId><version>2</version>", Part::Version),
    ];
    for (fields, part) in cases {
        let manifest = format!(
            "<project><dependencies><dependency>{}</dependency></dependencies></project>",
            fields
        );
        match dependencies_in_pom(&manifest) {
            Err(ManifestError::Repeated(repeated)) => assert_eq!(repeated, part),
            other => panic!("{:?}", other),
        }
    }
}

#[test]
fn a_field_holds_text_only() {
    let manifest = "<project><dependencies><dependency><groupId>g</groupId><artifactId><b>a</b></artifactId><version>1</version></dependency></dependencies></project>";
    assert!(matches!(
        dependencies_in_pom(manifest),
        Err(ManifestError::NotText(Part::ArtifactId))
    ));
    let manifest = "<project><dependencies><dependency><groupId>g</groupId><artifactId>a</artifactId><version>1<x/>2</version></dependency></dependencies></project>";
    assert!(matches!(
        dependencies_in_pom(manifest),
        Err(ManifestError::NotText(Part::Version))
    ));
}

#[test]
fn field_values_are_kept_as_they_are() {
    let manifest = "<project><dependencies><dependency>\n  <groupId>  Org.Example  </groupId>\n  <artifactId>a &amp; b</artifactId>\n  <version><![CDATA[1.0 <beta>]]></version>\n  <scope>test</scope>\n  <exclusions><exclusion><groupId>x</groupId></exclusion></exclusions>\n</dependency></dependencies></project>";
    assert_eq!(
        dependencies_in_pom(manifest).unwrap(),
        vec![artifact("Org.Example", "a & b", "1.0 <beta>")]
    );
}

#[test]
fn an_empty_field_is_the_empty_text() {
    let manifest = "<project><dependencies><dependency><groupId></groupId><artifactId/><version> </version></dependency></dependencies></project>";
    assert_eq!(dependencies_in_pom(manifest).unwrap(), vec![artifact("", "", "")]);
}

#[test]
fn field_names_are_exact() {
    let manifest = "<project><dependencies><dependency><groupid>g</groupid><artifactId>a</artifactId><version>1</version></dependency></dependencies></project>";
    assert!(matches!(
        dependencies_in_pom(manifest),
        Err(ManifestError::Missing(Part::GroupId))
    ));
    let manifest = "<project><Dependencies/></project>";
    assert!(matches!(
        dependencies_in_pom(manifest),
        Err(ManifestError::Missing(Part::Dependencies))
    ));
}

#[test]
fn other_elements_and_comments_are_passed_over() {
    let manifest = "<!-- a project --><project><?target data?><name>n</name>text<dependencies><!-- none yet --><other/><dependency><groupId>g</groupId><!-- the name --><artifactId>a</artifactId><version>1</version></dependency>stray<plugin><dependency/></plugin><dependency><version>2</version><artifactId>b</artifactId><groupId>h</groupId></dependency></dependencies></project>";
    assert_eq!(
        dependencies_in_pom(manifest).unwrap(),
        vec![artifact("g", "a", "1"), artifact("h", "b", "2")]
    );
}

#[test]
fn the_first_faulty_entry_decides() {
    let manifest = "<project><dependencies><dependency><groupId>g</groupId><artifactId>a</artifactId></dependency><dependency/></dependencies></project>";
    assert!(matches!(
        dependencies_in_pom(manifest),
        Err(ManifestError::Missing(Part::Version))
    ));
}

#[test]
fn dependencies_of_tokens() {
    let tokens = document(vec![entry("g", "a", "1"), entry("h", "b", "2"), entry("i", "c", "3")]);
    assert_eq!(
        dependencies_in_tokens(tokens).unwrap(),
        vec![artifact("g", "a", "1"), artifact("h", "b", "2"), artifact("i", "c", "3")]
    );
    assert_eq!(dependencies_in_tokens(document(Vec::new())).unwrap(), Vec::new());
}

#[test]
fn tokens_that_are_no_document() {
    let cases = vec![
        Vec::new(),
        vec![Token::Other],
        vec![Token::Close],
        vec![text("t")],
        vec![open("project")],
        vec![open("project"), open("dependencies"), Token::Close],
        vec![open("project"), Token::Close, Token::Close],
        vec![open("project"), Token::Close, open("dependencies"), Token::Close],
        vec![open("project"), Token::Close, text("t")],
    ];
    for tokens in cases {
        assert!(matches!(dependencies_in_tokens(tokens), Err(ManifestError::NotADocument)));
    }
}

#[test]
fn significant_tokens_are_kept_in_order() {
    let kept = significant_tokens(vec![
        Token::Other,
        open("a"),
        Token::Other,
        text("t"),
        Token::Close,
        Token::Other,
    ]);
    assert_eq!(kept.len(), 3);
    assert!(matches!(&kept[0], Token::Open(name) if name == "a"));
    assert!(matches!(&kept[1], Token::Text(content) if content == "t"));
    assert!(matches!(&kept[2], Token::Close));
}

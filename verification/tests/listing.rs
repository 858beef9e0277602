use sdk_rules::sdkman::candidate::{
    body_rows, columns, grid_versions, is_rule, marks, table_versions, width, Candidate, Layout,
    SdkManCandidate, VersionParser,
};

#[test]
fn sample_kotlin_versions_parsed_in_order() {
    let candidate = SdkManCandidate {
        name: "kotlin".to_string(),
        output:
            "================================================================================
Available Kotlin Versions
================================================================================
 > * 1.9.0               1.4.20              1.2.70              1.1.4
     1.8.20              1.4.10              1.2.61              1.1.3-2

================================================================================
+ - local version
* - installed
> - currently in use
================================================================================"
                .to_string(),
    };
    let expected = vec![
        "1.9.0", "1.8.20", "1.4.20", "1.4.10", "1.2.70", "1.2.61", "1.1.4", "1.1.3-2",
    ];
    assert_eq!(candidate.available_versions(), expected);
}

#[test]
fn sample_java_versions_parsed_in_order() {
    let candidate = SdkManCandidate {
        name: "java".to_string(),
        output:
            "================================================================================
Available Java Versions for macOS ARM 64bit
================================================================================
 Vendor        | Use | Version      | Dist    | Status     | Identifier
--------------------------------------------------------------------------------
 Corretto      |     | 21           | amzn    |            | 21-amzn
               |     | 20.0.2       | amzn    |            | 20.0.2-amzn
 Gluon         |     | 22.1.0.1.r17 | gln     |            | 22.1.0.1.r17-gln
               |     | 22.1.0.1.r11 | gln     |            | 22.1.0.1.r11-gln
 GraalVM CE    |     | 21           | graalce | installed  | 21-graalce
               |     | 20.0.2       | graalce |            | 20.0.2-graalce
               |     | 20.0.1       | graalce |            | 20.0.1-graalce
================================================================================
Omit Identifier to install default version 17.0.8.1-tem:
    $ sdk install java
Use TAB completion to discover available versions
    $ sdk install java [TAB]
Or install a specific version by Identifier:
    $ sdk install java 17.0.8.1-tem
Hit Q to exit this list view
================================================================================"
                .to_string(),
    };
    let expected = vec![
        "21-amzn",
        "20.0.2-amzn",
        "22.1.0.1.r17-gln",
        "22.1.0.1.r11-gln",
        "21-graalce",
        "20.0.2-graalce",
        "20.0.1-graalce",
    ];
    assert_eq!(candidate.available_versions(), expected);
}

#[test]
fn grid_is_read_lane_by_lane() {
    let candidate = SdkManCandidate {
        name: "kotlin".to_string(),
        output: "====\nAvailable Kotlin Versions\n====\n > * 1.9.0     1.4.20\n     1.8.20    * 1.4.10\n====\n"
            .to_string(),
    };
    assert_eq!(
        candidate.available_versions(),
        vec!["1.9.0", "1.8.20", "1.4.20", "1.4.10"]
    );
}

#[test]
fn table_row_yields_its_identifier() {
    let candidate = SdkManCandidate {
        name: "java".to_string(),
        output: "====\nAvailable Java Versions\n====\n Vendor | Use | Version | Dist | Status | Identifier\n----\n Corretto      |     | 21           | amzn    |            | 21-amzn\n====\n"
            .to_string(),
    };
    assert_eq!(candidate.available_versions(), vec!["21-amzn"]);
}

#[test]
fn delimiters_never_appear_among_the_versions() {
    let grid = SdkManCandidate {
        name: "groovy".to_string(),
        output: "=\ntitle\n==\n4.0.1\n----\n3.0.9\n===\n2.5.0\n".to_string(),
    };
    assert_eq!(grid.available_versions(), vec!["4.0.1", "3.0.9"]);
    let table = SdkManCandidate {
        name: "java".to_string(),
        output: "==\n==\nhead\n--\n | 21-tem\n--\n | 17-tem\n==\n | 11-tem\n".to_string(),
    };
    assert_eq!(table.available_versions(), vec!["21-tem"]);
}

#[test]
fn short_rows_leave_their_lanes_alone() {
    let candidate = SdkManCandidate {
        name: "scala".to_string(),
        output: "==\n==\n a1 b1 c1\n a2\n a3 b3\n==".to_string(),
    };
    assert_eq!(
        candidate.available_versions(),
        vec!["a1", "a2", "a3", "b1", "b3", "c1"]
    );
}

#[test]
fn empty_or_malformed_listing_has_no_versions() {
    for name in ["java", "kotlin"] {
        for output in ["", "\n\n", "no rules at all\n1.0 2.0", "====\nonly one rule\n1.0\n", "----\n1.0\n"] {
            let candidate = SdkManCandidate {
                name: name.to_string(),
                output: output.to_string(),
            };
            assert_eq!(candidate.available_versions(), Vec::<String>::new(), "{} {:?}", name, output);
        }
    }
}

#[test]
fn table_needs_its_dashes() {
    let candidate = SdkManCandidate {
        name: "java".to_string(),
        output: "==\n==\n | 21-tem\n==\n".to_string(),
    };
    assert_eq!(candidate.available_versions(), Vec::<String>::new());
}

#[test]
fn only_java_is_read_as_a_table() {
    let output = "==\n==\n a | b\n--\n c | d\n==\n".to_string();
    let java = SdkManCandidate { name: "java".to_string(), output: output.clone() };
    assert_eq!(java.available_versions(), vec!["d"]);
    let javac = SdkManCandidate { name: "javac".to_string(), output };
    assert_eq!(javac.available_versions(), vec!["a", "c", "|", "|", "b", "d"]);
}

#[test]
fn layouts_can_be_read_directly() {
    let candidate = SdkManCandidate {
        name: "java".to_string(),
        output: "==\n==\n--\n x | 1\n y | > 2 *\n==\n".to_string(),
    };
    assert_eq!(candidate.java_versions(), vec!["1", "2"]);
    assert_eq!(candidate.non_java_versions(), vec!["x", "y", "|", "|", "1", "2"]);
}

#[test]
fn rule_lines_are_one_mark_repeated() {
    assert!(is_rule("=", '='));
    assert!(is_rule("=====", '='));
    assert!(is_rule("--", '-'));
    assert!(!is_rule("", '='));
    assert!(!is_rule("== ", '='));
    assert!(!is_rule("=-=", '='));
    assert!(!is_rule("--", '='));
}

#[test]
fn markers_are_no_columns() {
    assert!(marks("*"));
    assert!(marks(">"));
    assert!(!marks("**"));
    assert!(!marks(""));
    assert!(!marks("+"));
    assert_eq!(columns(" > * 1.9.0 >1 * "), vec!["1.9.0", ">1"]);
}

#[test]
fn rows_are_the_columns_of_the_body_lines() {
    let text = "==\ntitle\n==\n a b\n\n * c\n==\n d\n";
    assert_eq!(
        body_rows(Layout::Grid, text),
        vec![vec!["a".to_string(), "b".to_string()], vec![], vec!["c".to_string()]]
    );
    assert_eq!(body_rows(Layout::Table, text), Vec::<Vec<String>>::new());
}

#[test]
fn versions_come_from_rows() {
    let rows = vec![
        vec!["a".to_string(), "b".to_string()],
        vec![],
        vec!["c".to_string()],
    ];
    assert_eq!(width(&rows), 2);
    assert_eq!(grid_versions(&rows), vec!["a", "c", "b"]);
    assert_eq!(table_versions(&rows), vec!["b", "c"]);
    assert_eq!(width(&Vec::new()), 0);
}

#[test]
fn rule_lines_are_what_the_anchored_patterns_match() {
    let equals = regex::Regex::new("^=+$").unwrap();
    let dashes = regex::Regex::new("^-+$").unwrap();
    let samples = [
        "", "=", "-", "==", "--", "=-", "-=", " =", "= ", "==\r", "=\n=", "a", "====a", "–", "=======",
        "-------", "\t", "\n", "== ==",
    ];
    for sample in samples {
        assert_eq!(is_rule(sample, '='), equals.is_match(sample), "{:?}", sample);
        assert_eq!(is_rule(sample, '-'), dashes.is_match(sample), "{:?}", sample);
    }
}

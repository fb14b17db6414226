use repochecker::data::BrokenDep;
use repochecker::parse::{format_nevra, parse_nevra, parse_repoquery};
use repochecker::text::parse_i32;

#[test]
fn parse_repoclosure() {
    let output = "\
package: Java-WebSocket-1.3.8-4.fc31.noarch from fedora
  unresolved deps:
    mvn(net.iharder:base64)
package: anchorman-0.0.1-17.fc32.x86_64 from fedora
  unresolved deps:
    gstreamer-plugins-good
    libgstreamer-0.10.so.0()(64bit)
package: asterisk-ices-17.3.0-1.fc32.x86_64 from fedora
  unresolved deps:
    ices";

    let expected = vec![
        BrokenDep {
            package: String::from("Java-WebSocket"),
            epoch: String::from("0"),
            version: String::from("1.3.8"),
            release: String::from("4.fc31"),
            arch: String::from("noarch"),
            repo: String::from("fedora"),
            broken: vec![String::from("mvn(net.iharder:base64)")],
        },
        BrokenDep {
            package: String::from("anchorman"),
            epoch: String::from("0"),
            version: String::from("0.0.1"),
            release: String::from("17.fc32"),
            arch: String::from("x86_64"),
            repo: String::from("fedora"),
            broken: vec![
                String::from("gstreamer-plugins-good"),
                String::from("libgstreamer-0.10.so.0()(64bit)"),
            ],
        },
        BrokenDep {
            package: String::from("asterisk-ices"),
            epoch: String::from("0"),
            version: String::from("17.3.0"),
            release: String::from("1.fc32"),
            arch: String::from("x86_64"),
            repo: String::from("fedora"),
            broken: vec![String::from("ices")],
        },
    ];

    assert_eq!(repochecker::parse::parse_repoclosure(output).unwrap(), expected);
}

#[test]
fn closure_sample_block_lengths() {
    let output = "\
package: Java-WebSocket-1.3.8-4.fc31.noarch from fedora
  unresolved deps:
    mvn(net.iharder:base64)
package: anchorman-0.0.1-17.fc32.x86_64 from fedora
  unresolved deps:
    gstreamer-plugins-good
    libgstreamer-0.10.so.0()(64bit)
package: asterisk-ices-17.3.0-1.fc32.x86_64 from fedora
  unresolved deps:
    ices";
    let records = repochecker::parse::parse_repoclosure(output).unwrap();
    assert_eq!(records.len(), 3);
    assert_eq!(records[0].package, "Java-WebSocket");
    assert_eq!(records[1].package, "anchorman");
    assert_eq!(records[2].package, "asterisk-ices");
    assert_eq!(records[0].broken.len(), 1);
    assert_eq!(records[1].broken.len(), 2);
    assert_eq!(records[2].broken.len(), 1);
}

#[test]
fn closure_capability_without_record_fails() {
    let output = "    dangling-capability";
    assert!(repochecker::parse::parse_repoclosure(output).is_err());
}

#[test]
fn closure_malformed_record_line_fails() {
    let output = "package: only-three-fields";
    assert!(repochecker::parse::parse_repoclosure(output).is_err());
}

#[test]
fn nevra_without_epoch() {
    let parsed = parse_nevra("Java-WebSocket-1.3.8-4.fc31.noarch").unwrap();
    assert_eq!(parsed, ("Java-WebSocket", "0", "1.3.8", "4.fc31", "noarch"));
}

#[test]
fn nevra_with_epoch() {
    let parsed = parse_nevra("bash-5:2.1-3.fc40.x86_64").unwrap();
    assert_eq!(parsed, ("bash", "5", "2.1", "3.fc40", "x86_64"));
}

#[test]
fn nevra_round_trip() {
    let formatted = format_nevra("bash", "5", "2.1", "3.fc40", "x86_64");
    assert_eq!(formatted, "bash-5:2.1-3.fc40.x86_64");
    let parsed = parse_nevra(&formatted).unwrap();
    assert_eq!(parsed, ("bash", "5", "2.1", "3.fc40", "x86_64"));

    let plain = format_nevra("sed", "", "4.8", "9.fc31", "src");
    assert_eq!(plain, "sed-4.8-9.fc31.src");
    let parsed = parse_nevra(&plain).unwrap();
    assert_eq!(parsed, ("sed", "0", "4.8", "9.fc31", "src"));
}

#[test]
fn nevra_without_dot_fails() {
    assert!(parse_nevra("no-dots-here").is_err());
}

#[test]
fn nevra_with_too_few_dashes_fails() {
    assert!(parse_nevra("only-one.dash").is_err());
}

#[test]
fn repoquery_single_line() {
    let line = "bash bash 0 5.2.26 3.fc40 x86_64";
    let packages = parse_repoquery(line).unwrap();
    assert_eq!(packages.len(), 1);
    assert_eq!(packages[0].name, "bash");
    assert_eq!(packages[0].source_name, "bash");
    assert_eq!(packages[0].epoch, 0);
    assert_eq!(packages[0].version, "5.2.26");
    assert_eq!(packages[0].release, "3.fc40");
    assert_eq!(packages[0].arch, "x86_64");
}

#[test]
fn repoquery_bad_field_count_fails() {
    assert!(parse_repoquery("bash bash 0 5.2.26 3.fc40").is_err());
}

#[test]
fn repoquery_bad_epoch_fails() {
    assert!(parse_repoquery("bash bash five 5.2.26 3.fc40 x86_64").is_err());
}

#[test]
fn closure_empty_input_yields_no_records() {
    assert_eq!(repochecker::parse::parse_repoclosure("").unwrap(), vec![]);
}

#[test]
fn closure_ignores_unrecognised_lines() {
    let output = "\
some banner line
package: bash-5:2.1-3.fc40.x86_64 from updates
  unresolved deps:
trailing remark
    libdep.so   ";
    let records = repochecker::parse::parse_repoclosure(output).unwrap();
    assert_eq!(records.len(), 1);
    assert_eq!(records[0].package, "bash");
    assert_eq!(records[0].epoch, "5");
    assert_eq!(records[0].repo, "updates");
    assert_eq!(records[0].broken, vec![String::from("libdep.so")]);
}

#[test]
fn decimal_parsing_bounds() {
    assert_eq!(parse_i32("0"), Some(0));
    assert_eq!(parse_i32("2147483647"), Some(2147483647));
    assert_eq!(parse_i32("-2147483648"), Some(-2147483648));
    assert_eq!(parse_i32("+41"), Some(41));
    assert_eq!(parse_i32("2147483648"), None);
    assert_eq!(parse_i32(""), None);
    assert_eq!(parse_i32("-"), None);
    assert_eq!(parse_i32("12a"), None);
}

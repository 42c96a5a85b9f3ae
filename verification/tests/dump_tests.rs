use bvdocs::dump::{Class, Dump, Member, Owner, Param, Return, SUPPORTED_DUMP_FORMAT};

fn member(name: &str, kind: &str) -> Member {
    Member {
        name: name.to_string(),
        kind: kind.to_string(),
        decl: format!("{name}: any"),
        summary: format!("The {name} member."),
        params: None,
        returns: None,
        payloads: None,
        overloads: None,
    }
}

fn class(name: &str, parent: Option<&str>) -> Class {
    Class {
        name: name.to_string(),
        parent: parent.map(|p| p.to_string()),
        creatable: true,
        summary: format!("{name} summary."),
        members: vec![member("Name", "ReadWrite")],
    }
}

fn dump_with(classes: Vec<Class>) -> Dump {
    Dump {
        dump_format: SUPPORTED_DUMP_FORMAT,
        core_version: "0.1.0".to_string(),
        classes,
        datatypes: vec![Owner {
            name: "Vector3".to_string(),
            summary: "A vector.".to_string(),
            members: vec![],
        }],
        services: vec![Owner {
            name: "DataModel".to_string(),
            summary: "The game.".to_string(),
            members: vec![],
        }],
        enums: vec![],
        globals: vec![],
    }
}

#[test]
fn load_accepts_the_supported_format() {
    let dump = dump_with(vec![class("Instance", None)]);
    let loaded = Dump::load(Ok(dump)).ok().expect("supported format");
    assert_eq!(loaded.core_version, "0.1.0");
}

#[test]
fn load_refuses_another_format() {
    let mut dump = dump_with(vec![]);
    dump.dump_format = 2;
    let error = Dump::load(Ok(dump)).err().expect("refused");
    assert_eq!(
        error,
        "dump_format 2 is not the supported 1 — update the tool (or the model sync delivered a newer engine's dump)"
    );
}

#[test]
fn load_passes_a_read_error_through() {
    let error = Dump::load(Err("cannot read x: gone".to_string())).err().unwrap();
    assert_eq!(error, "cannot read x: gone");
}

#[test]
fn ancestors_are_root_first() {
    let dump = dump_with(vec![
        class("Instance", None),
        class("PVInstance", Some("Instance")),
        class("BasePart", Some("PVInstance")),
        class("Part", Some("BasePart")),
    ]);
    assert_eq!(dump.ancestors("Part"), vec!["Instance", "PVInstance", "BasePart"]);
    assert_eq!(dump.ancestors("Instance"), Vec::<&str>::new());
    assert_eq!(dump.ancestors("Unknown"), Vec::<&str>::new());
}

#[test]
fn ancestors_stop_at_a_parent_the_dump_lacks() {
    let dump = dump_with(vec![class("Part", Some("Missing"))]);
    assert_eq!(dump.ancestors("Part"), vec!["Missing"]);
}

#[test]
fn parent_of_takes_the_first_class_of_a_name() {
    let dump = dump_with(vec![class("A", Some("X")), class("A", Some("Y"))]);
    assert_eq!(dump.parent_of("A"), Some("X"));
    assert_eq!(dump.parent_of("B"), None);
}

#[test]
fn chain_checks_find_cycles() {
    let dump = dump_with(vec![class("A", Some("B")), class("B", Some("A")), class("C", None)]);
    assert!(!dump.chain_ends_within("A", 10));
    assert!(dump.chain_ends_within("C", 0));
    assert!(!dump.chains_end_within(10));
    let fine = dump_with(vec![class("A", None), class("B", Some("A"))]);
    assert!(fine.chains_end_within(3));
    assert!(!fine.chain_ends_within("B", 0));
    assert!(fine.chain_ends_within("B", 1));
}

#[test]
fn sections_list_the_three_page_sections() {
    let dump = dump_with(vec![class("Instance", None)]);
    let sections = dump.sections();
    assert_eq!(sections[0].0, "classes");
    assert_eq!(sections[1].0, "datatypes");
    assert_eq!(sections[2].0, "services");
    assert_eq!(sections[0].1.len(), 1);
    assert_eq!(sections[0].1[0].0, "Instance");
    assert_eq!(sections[0].1[0].1, "Instance summary.");
    assert_eq!(sections[0].1[0].2.len(), 1);
    assert_eq!(sections[1].1[0].0, "Vector3");
    assert_eq!(sections[2].1[0].0, "DataModel");
}

#[test]
fn signatures_keep_parameters_and_returns() {
    let mut m = member("Clone", "Method");
    m.params = Some(vec![Param { name: "deep".into(), ty: "boolean".into(), optional: true }]);
    m.returns = Some(vec![Return { ty: "Instance".into() }]);
    assert_eq!(m.params.as_ref().unwrap()[0].name, "deep");
    assert_eq!(m.returns.as_ref().unwrap()[0].ty, "Instance");
}

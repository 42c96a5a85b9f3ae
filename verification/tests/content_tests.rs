use bvdocs::content::{
    validate_owner, validation_report, Content, ContentFile, Example, MemberContent, OwnerContent,
    SectionContent, is_reserved,
};
use bvdocs::dump::{Class, Dump, Member, Owner, Param, Return};

fn member(name: &str, kind: &str) -> Member {
    Member {
        name: name.to_string(),
        kind: kind.to_string(),
        decl: format!("{name}: any"),
        summary: format!("The {name} member."),
        params: None,
        returns: None,
        payloads: None,
        overloads: None,
    }
}

fn method(name: &str, params: &[&str], returns: usize) -> Member {
    let mut m = member(name, "Method");
    m.params = Some(
        params
            .iter()
            .map(|p| Param { name: p.to_string(), ty: "number".to_string(), optional: false })
            .collect(),
    );
    m.returns = Some((0..returns).map(|_| Return { ty: "boolean".to_string() }).collect());
    m
}

fn sample_dump() -> Dump {
    Dump {
        dump_format: 1,
        core_version: "0.3.0".to_string(),
        classes: vec![Class {
            name: "Instance".to_string(),
            parent: None,
            creatable: false,
            summary: "The base.".to_string(),
            members: vec![
                member("Name", "ReadWrite"),
                method("FindFirstChild", &["name", "recursive"], 1),
                method("Destroy", &[], 0),
                member("Changed", "Signal"),
            ],
        }],
        datatypes: vec![Owner {
            name: "Vector3".to_string(),
            summary: "A vector.".to_string(),
            members: vec![member("new", "Static"), member("X", "ReadOnly")],
        }],
        services: vec![],
        enums: vec![],
        globals: vec![],
    }
}

fn content_of(members: Vec<(&str, MemberContent)>) -> OwnerContent {
    OwnerContent {
        members: members.into_iter().map(|(n, c)| (n.to_string(), c)).collect(),
        class: None,
    }
}

fn prose() -> MemberContent {
    MemberContent { params: vec![], returns: None, remarks: None, examples: vec![] }
}

fn example(title: &str, code: &str, runnable: bool) -> Example {
    Example { title: title.to_string(), code: code.to_string(), runnable }
}

fn file(name: &str, parsed: Result<OwnerContent, String>) -> ContentFile {
    ContentFile { file_name: name.to_string(), parsed }
}

#[test]
fn validate_owner_reports_each_problem() {
    let dump = sample_dump();
    let mut params_on_plain = prose();
    params_on_plain.params = vec![("value".to_string(), "The value.".to_string())];
    let mut unknown_param = prose();
    unknown_param.params = vec![
        ("name".to_string(), "The name.".to_string()),
        ("nmae".to_string(), "Typo.".to_string()),
    ];
    unknown_param.returns = Some("The child.".to_string());
    let mut returns_without_positions = prose();
    returns_without_positions.returns = Some("Nothing.".to_string());
    let mut blank_example = prose();
    blank_example.examples = vec![example("Empty", "  \n\t", false), example("Fine", "print(1)", false)];
    let content = content_of(vec![
        ("Changed", blank_example),
        ("Destroy", returns_without_positions),
        ("FindFirstChild", unknown_param),
        ("Missing", prose()),
        ("Name", params_on_plain),
    ]);
    let mut errors = vec!["earlier".to_string()];
    validate_owner("classes", "Instance", &content, &dump.classes[0].members, &mut errors);
    assert_eq!(
        errors,
        vec![
            "earlier".to_string(),
            "content/classes/Instance.yaml: Changed: example \"Empty\" has empty code".to_string(),
            "content/classes/Instance.yaml: Destroy: returns prose on a member with no return positions"
                .to_string(),
            "content/classes/Instance.yaml: FindFirstChild: no parameter named nmae (the dump has: name, recursive)"
                .to_string(),
            "content/classes/Instance.yaml: Missing: no such member on Instance in the dump".to_string(),
            "content/classes/Instance.yaml: Name: params prose on a member without a parsed signature"
                .to_string(),
        ]
    );
}

#[test]
fn params_prose_on_a_plain_member_is_reported_once() {
    let dump = sample_dump();
    let mut c = prose();
    c.params = vec![("a".to_string(), "A.".to_string()), ("b".to_string(), "B.".to_string())];
    let content = content_of(vec![("Name", c)]);
    let mut errors = Vec::new();
    validate_owner("classes", "Instance", &content, &dump.classes[0].members, &mut errors);
    assert_eq!(errors.len(), 1);
}

#[test]
fn load_collects_every_problem() {
    let dump = sample_dump();
    let listings = vec![
        vec![
            file("Instance.yaml", Err("mapping values are not allowed here".to_string())),
            file("Part.yaml", Ok(content_of(vec![]))),
            file("notes.txt", Ok(content_of(vec![]))),
        ],
        vec![file("Vector3.yaml", Ok(content_of(vec![("Y", prose())])))],
    ];
    let guides = vec![
        "README.md".to_string(),
        "editor-setup.md".to_string(),
        "notes.txt".to_string(),
    ];
    let errors = Content::load(&dump, listings, guides).err().expect("problems");
    assert_eq!(
        errors,
        vec![
            "content/classes/Instance.yaml: mapping values are not allowed here".to_string(),
            "content/classes/Part.yaml: no classes owner named Part in the dump".to_string(),
            "content/classes/notes.txt: only .yaml files live here".to_string(),
            "content/datatypes/Vector3.yaml: Y: no such member on Vector3 in the dump".to_string(),
            "content/guides/README.md: shadows a generated page — rename it".to_string(),
            "content/guides/notes.txt: only .md files live here".to_string(),
        ]
    );
}

#[test]
fn load_keeps_valid_content_in_name_order() {
    let dump = sample_dump();
    let mut name = prose();
    name.remarks = Some("Names are not unique.".to_string());
    let listings = vec![
        vec![file("Instance.yaml", Ok(content_of(vec![("Name", name)])))],
        vec![file("Vector3.yaml", Ok(content_of(vec![("new", prose())])))],
        vec![],
    ];
    let content = Content::load(&dump, listings, vec!["editor-setup.md".to_string()])
        .ok()
        .expect("valid");
    assert_eq!(content.owners.len(), 3);
    assert_eq!(content.owners[0].0, "classes");
    assert_eq!(content.owners[1].0, "datatypes");
    assert_eq!(content.owners[2].0, "services");
    assert_eq!(content.owners[0].1[0].0, "Instance");
    assert_eq!(content.guides, vec!["editor-setup.md".to_string()]);
    let found = content.member("classes", "Instance", "Name").expect("present");
    assert_eq!(found.remarks.as_deref(), Some("Names are not unique."));
    assert!(content.member("classes", "Instance", "Destroy").is_none());
    assert!(content.member("services", "Instance", "Name").is_none());
    assert!(content.member("other", "Instance", "Name").is_none());
}

#[test]
fn owners_of_a_section_are_kept_by_name() {
    let mut dump = sample_dump();
    dump.classes.push(Class {
        name: "A-B".to_string(),
        parent: None,
        creatable: true,
        summary: String::new(),
        members: vec![],
    });
    dump.classes.push(Class {
        name: "A".to_string(),
        parent: None,
        creatable: true,
        summary: String::new(),
        members: vec![],
    });
    // Directory order puts "A-B.yaml" before "A.yaml"; owner order is by name.
    let listings = vec![vec![
        file("A-B.yaml", Ok(content_of(vec![]))),
        file("A.yaml", Ok(content_of(vec![]))),
        file("Instance.yaml", Ok(content_of(vec![]))),
    ]];
    let content = Content::load(&dump, listings, vec![]).ok().expect("valid");
    let names: Vec<&str> = content.owners[0].1.iter().map(|(n, _)| n.as_str()).collect();
    assert_eq!(names, vec!["A", "A-B", "Instance"]);
}

#[test]
fn a_missing_listing_is_an_empty_directory() {
    let dump = sample_dump();
    let content = Content::load(&dump, vec![], vec![]).ok().expect("valid");
    assert_eq!(content.owners.len(), 3);
    assert!(content.owners.iter().all(|(_, owners)| owners.is_empty()));
}

#[test]
fn coverage_counts_members_with_content() {
    let dump = sample_dump();
    let listings = vec![
        vec![file(
            "Instance.yaml",
            Ok(content_of(vec![("Destroy", prose()), ("Name", prose())])),
        )],
        vec![file("Vector3.yaml", Ok(content_of(vec![("X", prose())])))],
    ];
    let content = Content::load(&dump, listings, vec![]).ok().expect("valid");
    assert_eq!(content.coverage(&dump), (3, 6));
}

#[test]
fn content_for_members_the_dump_lacks_is_not_counted() {
    let dump = sample_dump();
    let listings = vec![vec![file("Instance.yaml", Ok(content_of(vec![("Name", prose())])))]];
    let mut content = Content::load(&dump, listings, vec![]).ok().expect("valid");
    let before = content.coverage(&dump);
    content.owners[0].1[0].1.members.push(("Zzz".to_string(), prose()));
    assert_eq!(content.coverage(&dump), before);
}

#[test]
fn page_extras_are_loaded() {
    let dump = sample_dump();
    let owner = OwnerContent {
        members: vec![],
        class: Some(SectionContent {
            remarks: Some("Everything inherits it.".to_string()),
            examples: vec![example("Tree", "print(workspace)", true)],
        }),
    };
    let content = Content::load(&dump, vec![vec![file("Instance.yaml", Ok(owner))]], vec![])
        .ok()
        .unwrap();
    let extras = content.owners[0].1[0].1.class.as_ref().unwrap();
    assert_eq!(extras.examples[0].title, "Tree");
}

#[test]
fn reserved_pages() {
    for name in [
        "README.md",
        "SUMMARY.md",
        "book.toml",
        "enums.md",
        "globals.md",
        "api-dump.json",
        "bettervoxel.d.luau",
        "bettervoxel-docs.json",
    ] {
        assert!(is_reserved(name), "{name}");
    }
    assert!(!is_reserved("editor-setup.md"));
}

#[test]
fn the_report_line() {
    assert_eq!(
        validation_report(12, 340, 1, "0.9.2"),
        "content valid — 12/340 members carry rich content, 1 guide(s), engine core 0.9.2"
    );
}

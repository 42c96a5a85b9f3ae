use bvdocs::content::{Content, Example, MemberContent, OwnerContent};
use bvdocs::docs::{emit_docs_json, push_member_docs, DocEntry};
use bvdocs::dump::{Class, Dump, Member, Owner, Param, Return};

fn member(name: &str, kind: &str) -> Member {
    Member {
        name: name.to_string(),
        kind: kind.to_string(),
        decl: String::new(),
        summary: format!("{name} summary."),
        params: None,
        returns: None,
        payloads: None,
        overloads: None,
    }
}

fn sample_dump() -> Dump {
    let mut find = member("FindFirstChild", "Method");
    find.params = Some(vec![
        Param { name: "name".into(), ty: "string".into(), optional: false },
        Param { name: "recursive".into(), ty: "boolean?".into(), optional: true },
    ]);
    find.returns = Some(vec![Return { ty: "Instance?".into() }, Return { ty: "number".into() }]);
    let mut new = member("new", "Static");
    new.params = Some(vec![]);
    Dump {
        dump_format: 1,
        core_version: "1".to_string(),
        classes: vec![Class {
            name: "Instance".to_string(),
            parent: None,
            creatable: false,
            summary: "The base.".to_string(),
            members: vec![member("Name", "ReadWrite"), find],
        }],
        datatypes: vec![Owner {
            name: "Vector3".to_string(),
            summary: "A vector.".to_string(),
            members: vec![new],
        }],
        services: vec![],
        enums: vec![],
        globals: vec![],
    }
}

fn sample_content() -> Content {
    let find = MemberContent {
        params: vec![("name".to_string(), " The name. ".to_string())],
        returns: Some("The child.\n".to_string()),
        remarks: Some("  Searches children.  ".to_string()),
        examples: vec![Example {
            title: "Find".to_string(),
            code: "workspace:FindFirstChild(\"A\")\n".to_string(),
            runnable: false,
        }],
    };
    Content {
        owners: vec![(
            "classes".to_string(),
            vec![(
                "Instance".to_string(),
                OwnerContent { members: vec![("FindFirstChild".to_string(), find)], class: None },
            )],
        )],
        guides: vec![],
    }
}

fn entry<'a>(db: &'a [(String, DocEntry)], key: &str) -> &'a DocEntry {
    &db.iter().find(|(k, _)| k == key).unwrap_or_else(|| panic!("no entry {key}")).1
}

#[test]
fn member_entries_merge_the_content() {
    let db = emit_docs_json(&sample_dump(), &sample_content());
    let find = entry(&db, "@bettervoxel/globaltype/Instance.FindFirstChild");
    assert_eq!(find.documentation, "FindFirstChild summary.\n\nSearches children.");
    assert_eq!(
        find.learn_more_link.as_deref(),
        Some("https://better-voxel.github.io/bettervoxel_scripting_doc/classes/Instance.html#findfirstchild")
    );
    assert_eq!(find.code_sample.as_deref(), Some("workspace:FindFirstChild(\"A\")"));
    let params = find.params.as_ref().unwrap();
    assert_eq!(params.len(), 2);
    assert_eq!(params[0].name, "name");
    assert_eq!(params[0].documentation, "@bettervoxel/globaltype/Instance.FindFirstChild/param/0");
    assert_eq!(
        find.returns.as_ref().unwrap(),
        &vec![
            "@bettervoxel/globaltype/Instance.FindFirstChild/return/0".to_string(),
            "@bettervoxel/globaltype/Instance.FindFirstChild/return/1".to_string(),
        ]
    );
    assert_eq!(
        entry(&db, "@bettervoxel/globaltype/Instance.FindFirstChild/param/0").documentation,
        "The name."
    );
    assert_eq!(
        entry(&db, "@bettervoxel/globaltype/Instance.FindFirstChild/param/1").documentation,
        "`recursive: boolean?`"
    );
    assert_eq!(
        entry(&db, "@bettervoxel/globaltype/Instance.FindFirstChild/return/0").documentation,
        "The child."
    );
    assert_eq!(
        entry(&db, "@bettervoxel/globaltype/Instance.FindFirstChild/return/1").documentation,
        "`number`"
    );
    let name = entry(&db, "@bettervoxel/globaltype/Instance.Name");
    assert!(name.params.is_none() && name.returns.is_none() && name.code_sample.is_none());
}

#[test]
fn type_entries_and_constructor_tables() {
    let db = emit_docs_json(&sample_dump(), &sample_content());
    let instance = entry(&db, "@bettervoxel/globaltype/Instance");
    assert_eq!(instance.documentation, "The base.");
    let keys = instance.keys.as_ref().unwrap();
    assert_eq!(
        keys,
        &vec![
            ("FindFirstChild".to_string(), "@bettervoxel/globaltype/Instance.FindFirstChild".to_string()),
            ("Name".to_string(), "@bettervoxel/globaltype/Instance.Name".to_string()),
        ]
    );
    let vector = entry(&db, "@bettervoxel/globaltype/Vector3");
    assert!(vector.keys.is_none());
    let table = entry(&db, "@bettervoxel/global/Vector3");
    assert_eq!(table.documentation, "The Vector3 constructors — see the Vector3 page.");
    assert_eq!(
        table.keys.as_ref().unwrap(),
        &vec![("new".to_string(), "@bettervoxel/global/Vector3.new".to_string())]
    );
    let new = entry(&db, "@bettervoxel/global/Vector3.new");
    assert_eq!(new.params.as_ref().unwrap().len(), 0);
    assert_eq!(new.returns.as_ref().unwrap().len(), 0);
    assert!(db.iter().all(|(k, _)| k != "@bettervoxel/global/Instance"));
}

#[test]
fn fixed_globals_and_order() {
    let db = emit_docs_json(&sample_dump(), &sample_content());
    let warn = entry(&db, "@bettervoxel/global/warn");
    assert_eq!(
        warn.learn_more_link.as_deref(),
        Some("https://better-voxel.github.io/bettervoxel_scripting_doc/globals.html")
    );
    let keys: Vec<&str> = db.iter().map(|(k, _)| k.as_str()).collect();
    let mut sorted = keys.clone();
    sorted.sort();
    assert_eq!(keys, sorted);
    assert_eq!(db.len(), 15);
}

fn closed(db: &[(String, DocEntry)]) -> bool {
    let has = |t: &str| db.iter().any(|(k, _)| k == t);
    db.iter().all(|(_, e)| {
        (e.returns.is_none() || e.params.is_some())
            && e.keys.iter().flatten().all(|(_, v)| has(v))
            && e.returns.iter().flatten().all(|r| has(r))
            && e.params.iter().flatten().all(|p| has(&p.documentation))
    })
}

#[test]
fn the_database_is_closed() {
    let db = emit_docs_json(&sample_dump(), &sample_content());
    assert!(closed(&db));
}

#[test]
fn member_docs_alone() {
    let mut db: Vec<(String, DocEntry)> = Vec::new();
    let mut m = member("Clone", "Method");
    m.params = Some(vec![]);
    m.returns = Some(vec![Return { ty: "Instance".into() }]);
    push_member_docs(&mut db, "@bettervoxel/globaltype/Instance.Clone", &m, None, "page");
    assert_eq!(db.len(), 2);
    assert_eq!(db[0].0, "@bettervoxel/globaltype/Instance.Clone");
    assert_eq!(db[0].1.learn_more_link.as_deref(), Some("page#clone"));
    assert_eq!(db[1].0, "@bettervoxel/globaltype/Instance.Clone/return/0");
    assert_eq!(db[1].1.documentation, "`Instance`");
}

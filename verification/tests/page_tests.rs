use bvdocs::content::{Content, Example, MemberContent, OwnerContent, SectionContent};
use bvdocs::dump::{Class, Dump, Member, Owner, Param, Return};
use bvdocs::generate::{
    book_pages, class_tree_within, emit_class_page, emit_enums, emit_globals, emit_index,
    emit_standalone_page, emit_summary, guide_title, push_member_groups_for, push_member_section,
    push_owner_extras, title_from, BOOK_TOML,
};

fn member(name: &str, kind: &str, decl: &str) -> Member {
    Member {
        name: name.to_string(),
        kind: kind.to_string(),
        decl: decl.to_string(),
        summary: format!("{name} summary."),
        params: None,
        returns: None,
        payloads: None,
        overloads: None,
    }
}

fn class(name: &str, parent: Option<&str>, creatable: bool, members: Vec<Member>) -> Class {
    Class {
        name: name.to_string(),
        parent: parent.map(|p| p.to_string()),
        creatable,
        summary: format!("{name} summary."),
        members,
    }
}

fn sample_dump() -> Dump {
    Dump {
        dump_format: 1,
        core_version: "1".to_string(),
        classes: vec![
            class(
                "Instance",
                None,
                false,
                vec![
                    member("Name", "ReadWrite", "Name: string"),
                    member("new", "Static", "new: (className: string) -> Instance"),
                ],
            ),
            class("Part", Some("Instance"), true, vec![member("Size", "ReadOnly", "Size: Vector3")]),
            class("Folder", Some("Instance"), true, vec![]),
        ],
        datatypes: vec![Owner {
            name: "Vector3".to_string(),
            summary: "A vector.".to_string(),
            members: vec![],
        }],
        services: vec![Owner {
            name: "DataModel".to_string(),
            summary: "The game.".to_string(),
            members: vec![],
        }],
        enums: vec![
            ("Material".to_string(), vec!["Grass".to_string(), "Plastic".to_string()]),
            ("Shape".to_string(), vec![]),
        ],
        globals: vec![
            "game".to_string(),
            "print".to_string(),
            "Custom".to_string(),
            "warn".to_string(),
        ],
    }
}

fn empty_content() -> Content {
    Content { owners: vec![], guides: vec![] }
}

fn no_content() -> MemberContent {
    MemberContent { params: vec![], returns: None, remarks: None, examples: vec![] }
}

#[test]
fn guide_titles() {
    assert_eq!(guide_title("editor-setup.md"), "Editor setup");
    assert_eq!(guide_title("scripting-basics"), "Scripting basics");
    assert_eq!(guide_title(".md"), "");
    assert_eq!(guide_title("1-intro.md"), "1 intro");
    assert_eq!(title_from("E", "editor setup"), "Editor setup");
}

#[test]
fn summary_page() {
    let dump = sample_dump();
    let mut content = empty_content();
    content.guides.push("editor-setup.md".to_string());
    assert_eq!(
        emit_summary(&dump, &content),
        "# Summary\n\n[BetterVoxel scripting API](README.md)\n\n# Guides\n\n- [Editor setup](editor-setup.md)\n\n# Classes\n\n- [Instance](classes/Instance.md)\n  - [Part](classes/Part.md)\n  - [Folder](classes/Folder.md)\n\n# Services\n\n- [DataModel](services/DataModel.md)\n\n# Datatypes\n\n- [Vector3](datatypes/Vector3.md)\n\n# Reference\n\n- [Enums](enums.md)\n- [Globals](globals.md)\n"
    );
}

#[test]
fn index_page_marks_classes_that_cannot_be_created() {
    let dump = sample_dump();
    let text = emit_index(&dump, &empty_content());
    assert!(text.starts_with("# BetterVoxel scripting API\n\nGenerated from the engine's pinned API model — regenerate with\n`cargo test -p bv_engine_core --features docgen --test api_surface`.\nThe Luau declaration file for IDEs is\n[`bettervoxel.d.luau`](bettervoxel.d.luau).\n\n## Classes\n\n"));
    assert!(text.contains("- [Instance](classes/Instance.md) *(not creatable)*\n  - [Part](classes/Part.md)\n  - [Folder](classes/Folder.md)\n"));
    assert!(text.ends_with("\n## Services\n\nStandalone objects `game:GetService` hands out (the DataModel is `game` itself);\nthe container services — ReplicatedStorage and friends — are ordinary\ninstances and need no pages of their own.\n\n- [DataModel](services/DataModel.md)\n\n## Datatypes\n\n- [Vector3](datatypes/Vector3.md)\n\n## Reference\n\n- [Enums](enums.md)\n- [Globals](globals.md)\n"));
    assert!(!text.contains("## Guides"));
}

#[test]
fn member_sections_by_kind() {
    let mut out = String::new();
    push_member_section(&mut out, &member("Name", "ReadWrite", "Name: string"), None);
    push_member_section(&mut out, &member("Size", "ReadOnly", "Size: Vector3"), None);
    let mut signal = member("Changed", "Signal", "Changed: RBXScriptSignal");
    signal.payloads = Some(vec!["property".to_string(), "value".to_string()]);
    push_member_section(&mut out, &signal, None);
    push_member_section(&mut out, &member("Destroy", "Method", "Destroy: (self) -> ()"), None);
    assert_eq!(
        out,
        "### Name\n\n`Name: string` — read/write\n\nName summary.\n\n### Size\n\n`Size: Vector3` — read-only\n\nSize summary.\n\n### Changed\n\nFires with `(property, value)`\n\nChanged summary.\n\n### Destroy\n\n`Destroy: (self) -> ()`\n\nDestroy summary.\n\n"
    );
}

#[test]
fn member_section_with_content() {
    let mut m = member("FindFirstChild", "Method", "FindFirstChild: (self, name: string, recursive: boolean?) -> Instance?");
    m.params = Some(vec![
        Param { name: "name".into(), ty: "string".into(), optional: false },
        Param { name: "recursive".into(), ty: "boolean?".into(), optional: true },
    ]);
    m.returns = Some(vec![Return { ty: "Instance?".into() }]);
    let content = MemberContent {
        params: vec![("name".to_string(), "  The child's\nname.  ".to_string())],
        returns: Some("  The child, if found. ".to_string()),
        remarks: Some("Searches children first.  \n".to_string()),
        examples: vec![Example {
            title: "Find a part".to_string(),
            code: "local p = workspace:FindFirstChild(\"Part\")\n\n".to_string(),
            runnable: false,
        }],
    };
    let mut out = String::new();
    push_member_section(&mut out, &m, Some(&content));
    assert_eq!(
        out,
        "### FindFirstChild\n\n`FindFirstChild: (self, name: string, recursive: boolean?) -> Instance?`\n\nFindFirstChild summary.\n\n| Parameter | Description |\n|---|---|\n| `name: string` | The child's name. |\n| `recursive: boolean?` | — |\n\n**Returns:** The child, if found.\n\nSearches children first.\n\n#### Find a part\n\n```lua\nlocal p = workspace:FindFirstChild(\"Part\")\n```\n\n"
    );
}

#[test]
fn content_only_adds_to_a_member_section() {
    let m = member("Name", "ReadWrite", "Name: string");
    let mut bare = String::new();
    push_member_section(&mut bare, &m, None);
    let mut rich = String::new();
    let mut c = no_content();
    c.remarks = Some("More.".to_string());
    push_member_section(&mut rich, &m, Some(&c));
    assert!(rich.starts_with(&bare));
    assert_eq!(&rich[bare.len()..], "More.\n\n");
}

#[test]
fn member_groups_follow_the_kind_order() {
    let members = vec![
        member("Destroy", "Method", "Destroy: (self) -> ()"),
        member("new", "Static", "new: () -> X"),
        member("Name", "ReadWrite", "Name: string"),
        member("Changed", "Signal", "Changed: Signal"),
        member("Odd", "Other", "Odd: any"),
    ];
    let mut out = String::new();
    push_member_groups_for(&mut out, "classes", "X", &members, &empty_content());
    let order: Vec<&str> = out.lines().filter(|l| l.starts_with("## ")).collect();
    assert_eq!(order, vec!["## Constructors", "## Properties", "## Methods", "## Events"]);
    assert!(!out.contains("Odd"));
}

#[test]
fn owner_extras_come_from_the_page_content() {
    let content = Content {
        owners: vec![(
            "datatypes".to_string(),
            vec![(
                "Vector3".to_string(),
                OwnerContent {
                    members: vec![],
                    class: Some(SectionContent {
                        remarks: Some("Vectors are values.\n\n".to_string()),
                        examples: vec![Example {
                            title: "Add".to_string(),
                            code: "print(Vector3.new(1, 2, 3))".to_string(),
                            runnable: true,
                        }],
                    }),
                },
            )],
        )],
        guides: vec![],
    };
    let mut out = String::new();
    push_owner_extras(&mut out, "datatypes", "Vector3", &content);
    assert_eq!(
        out,
        "Vectors are values.\n\n#### Add\n\n```lua\nprint(Vector3.new(1, 2, 3))\n```\n\n"
    );
    let mut none = String::new();
    push_owner_extras(&mut none, "classes", "Vector3", &content);
    assert_eq!(none, "");
    let page = emit_standalone_page("datatypes", "Vector3", "A vector.", &[], &content);
    assert_eq!(
        page,
        "# Vector3\n\nA vector.\n\nVectors are values.\n\n#### Add\n\n```lua\nprint(Vector3.new(1, 2, 3))\n```\n\n"
    );
}

#[test]
fn class_pages() {
    let dump = sample_dump();
    let content = empty_content();
    assert_eq!(
        emit_class_page(&dump, &dump.classes[1], &content),
        "# Part\n\n*Inherits [Instance](Instance.md)*\n\nCreatable with `Instance.new(\"Part\")`.\n\nPart summary.\n\n## Properties\n\n### Size\n\n`Size: Vector3` — read-only\n\nSize summary.\n\n## Inherited members\n\n- from [Instance](Instance.md): Name\n"
    );
    assert_eq!(
        emit_class_page(&dump, &dump.classes[0], &content),
        "# Instance\n\nNot creatable: a base class other classes inherit from.\n\nInstance summary.\n\n## Constructors\n\n### new\n\n`new: (className: string) -> Instance`\n\nnew summary.\n\n## Properties\n\n### Name\n\n`Name: string` — read/write\n\nName summary.\n\n"
    );
    let mut lonely = dump.classes[2].clone_for_test();
    lonely.creatable = false;
    let page = emit_class_page(&dump, &lonely, &content);
    assert!(page.contains("Not creatable: the engine spawns it.\n\n"));
}

trait CloneForTest {
    fn clone_for_test(&self) -> Self;
}

impl CloneForTest for Class {
    fn clone_for_test(&self) -> Self {
        Class {
            name: self.name.clone(),
            parent: self.parent.clone(),
            creatable: self.creatable,
            summary: self.summary.clone(),
            members: vec![],
        }
    }
}

#[test]
fn enums_page() {
    assert_eq!(
        emit_enums(&sample_dump()),
        "# Enums\n\nItems in name order; `EnumItem.Value` is an engine-internal index.\n\n## Enum.Material\n\n- `Grass`\n- `Plastic`\n\n## Enum.Shape\n\n\n"
    );
}

#[test]
fn enum_items_come_in_name_order() {
    let mut dump = sample_dump();
    dump.enums = vec![(
        "Material".to_string(),
        vec!["Wood".to_string(), "Plastic".to_string(), "Brick".to_string(), "Plastic".to_string()],
    )];
    assert_eq!(
        emit_enums(&dump),
        "# Enums\n\nItems in name order; `EnumItem.Value` is an engine-internal index.\n\n## Enum.Material\n\n- `Brick`\n- `Plastic`\n- `Plastic`\n- `Wood`\n\n"
    );
}

#[test]
fn globals_page() {
    assert_eq!(
        emit_globals(&sample_dump()),
        "# Globals\n\nEverything a script's environment starts with.\n\n## Engine globals\n\n- `game` — the [DataModel](services/DataModel.md): `game:GetService(name)` hands out the engine services\n\n## Other globals\n\n- `Custom`\n\n## Luau standard library\n\n`print`, `warn`\n\n"
    );
}

#[test]
fn globals_page_without_other_globals() {
    let mut dump = sample_dump();
    dump.globals = vec!["task".to_string()];
    assert_eq!(
        emit_globals(&dump),
        "# Globals\n\nEverything a script's environment starts with.\n\n## Engine globals\n\n- `task` — the scheduler library (`spawn`/`defer`/`wait` on the engine clock) — not yet in the API model\n\n## Luau standard library\n\n\n\n"
    );
}

#[test]
fn the_book_pages() {
    let dump = sample_dump();
    assert!(class_tree_within(&dump, dump.classes.len() + 1));
    let pages = book_pages(&dump, &empty_content());
    let paths: Vec<&str> = pages.iter().map(|(p, _)| p.as_str()).collect();
    assert_eq!(
        paths,
        vec![
            "book.toml",
            "SUMMARY.md",
            "README.md",
            "classes/Instance.md",
            "classes/Part.md",
            "classes/Folder.md",
            "datatypes/Vector3.md",
            "services/DataModel.md",
            "enums.md",
            "globals.md",
        ]
    );
    assert_eq!(pages[0].1, BOOK_TOML);
    assert_eq!(
        BOOK_TOML,
        "[book]\ntitle = \"BetterVoxel scripting API\"\nlanguage = \"en\"\nsrc = \".\"\n\n[build]\nbuild-dir = \"../target/book\"\ncreate-missing = false\n"
    );
}

#[test]
fn class_tree_check_finds_cycles() {
    let mut dump = sample_dump();
    dump.classes.push(class("Instance", Some("Instance"), true, vec![]));
    assert!(!class_tree_within(&dump, dump.classes.len() + 1));
}

fn lines_are_within(bare: &str, rich: &str) -> bool {
    let mut rest = rich.lines();
    bare.lines().all(|line| rest.any(|other| other == line))
}

#[test]
fn content_only_adds_lines_to_whole_pages() {
    let dump = sample_dump();
    let mut size = no_content();
    size.remarks = Some("Size is in studs.".to_string());
    let content = Content {
        owners: vec![(
            "classes".to_string(),
            vec![(
                "Part".to_string(),
                OwnerContent {
                    members: vec![("Size".to_string(), size)],
                    class: Some(SectionContent {
                        remarks: Some("Parts are bricks.".to_string()),
                        examples: vec![],
                    }),
                },
            )],
        )],
        guides: vec![],
    };
    let bare = emit_class_page(&dump, &dump.classes[1], &empty_content());
    let rich = emit_class_page(&dump, &dump.classes[1], &content);
    assert!(rich.contains("Parts are bricks.\n\n"));
    assert!(rich.contains("Size is in studs.\n\n"));
    assert!(lines_are_within(&bare, &rich));
    assert!(!lines_are_within(&rich, &bare));
    let bare = emit_standalone_page("classes", "Part", "A part.", &dump.classes[1].members, &empty_content());
    let rich = emit_standalone_page("classes", "Part", "A part.", &dump.classes[1].members, &content);
    assert!(lines_are_within(&bare, &rich));
    assert_ne!(bare, rich);
}

#[test]
fn index_and_summary_list_the_same_class_tree() {
    let dump = sample_dump();
    let content = empty_content();
    let summary = emit_summary(&dump, &content);
    let index = emit_index(&dump, &content);
    let between = |text: &str, from: &str, to: &str| -> Vec<String> {
        let start = text.find(from).unwrap() + from.len();
        let end = text[start..].find(to).unwrap() + start;
        text[start..end].lines().filter(|l| !l.is_empty()).map(|l| l.to_string()).collect()
    };
    let s = between(&summary, "# Classes\n", "# Services");
    let i = between(&index, "## Classes\n", "## Services");
    assert_eq!(s.len(), 3);
    assert_eq!(s.len(), i.len());
    for (sl, il) in s.iter().zip(i.iter()) {
        let name = &sl[sl.find('[').unwrap() + 1..sl.find(']').unwrap()];
        let class = dump.classes.iter().find(|c| c.name == name).unwrap();
        if class.creatable {
            assert_eq!(il, sl);
        } else {
            assert_eq!(il, &format!("{sl} *(not creatable)*"));
        }
    }
}

use bvdocs::content::{Content, Example, MemberContent, OwnerContent, SectionContent};
use bvdocs::snippets::{lua_fences, runnable_examples, snippets};

fn example(code: &str, runnable: bool) -> Example {
    Example { title: "T".to_string(), code: code.to_string(), runnable }
}

fn sample_content() -> Content {
    let member = MemberContent {
        params: vec![],
        returns: None,
        remarks: None,
        examples: vec![example("a()", false), example("b()", true)],
    };
    Content {
        owners: vec![
            (
                "classes".to_string(),
                vec![(
                    "Instance".to_string(),
                    OwnerContent {
                        members: vec![("Clone".to_string(), member)],
                        class: Some(SectionContent {
                            remarks: None,
                            examples: vec![example("c()", true)],
                        }),
                    },
                )],
            ),
            ("datatypes".to_string(), vec![]),
        ],
        guides: vec!["editor-setup.md".to_string()],
    }
}

#[test]
fn fences_keep_lua_and_luau_blocks_only() {
    let text = "# Guide\n\n```lua\nprint(1)\n```\n\n```json\n{}\n```\n  ```luau\nlocal x = 1\r\n\nreturn x\n```  \n```lua\nunclosed\n";
    assert_eq!(
        lua_fences(text),
        vec!["print(1)\n".to_string(), "local x = 1\n\nreturn x\n".to_string()]
    );
    assert!(lua_fences("no fences").is_empty());
}

#[test]
fn snippet_labels() {
    let content = sample_content();
    let guides = vec![(
        "editor-setup.md".to_string(),
        "```lua\nprint(1)\n```\n```luau\nprint(2)\n```\n".to_string(),
    )];
    let all = snippets(&content, &guides);
    let labels: Vec<&str> = all.iter().map(|(l, _)| l.as_str()).collect();
    assert_eq!(
        labels,
        vec![
            "classes.Instance.Clone.0",
            "classes.Instance.Clone.1",
            "classes.Instance.0",
            "guides.editor-setup.0",
            "guides.editor-setup.1",
        ]
    );
    assert_eq!(all[4].1, "print(2)\n");
}

#[test]
fn runnable_examples_only() {
    let runnable = runnable_examples(&sample_content());
    assert_eq!(
        runnable,
        vec![
            ("classes.Instance.Clone.1".to_string(), "b()".to_string()),
            ("classes.Instance.0".to_string(), "c()".to_string()),
        ]
    );
}

#[test]
fn every_runnable_example_is_type_checked() {
    let content = sample_content();
    let all = snippets(&content, &vec![]);
    for pair in runnable_examples(&content) {
        assert!(all.contains(&pair), "{pair:?}");
    }
}

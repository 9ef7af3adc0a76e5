use yexp::{
    from_relative_path, handle_mapping_yaml, handle_yaml, Error, ErrorKind, Halt, Loaded, Mapping,
    Number, Request, Store, TaggedValue, Value,
};

fn text(s: &str) -> Value {
    Value::String(s.to_string())
}

fn number(n: u64) -> Value {
    Value::Number(Number::PosInt(n))
}

fn list(items: Vec<Value>) -> Value {
    Value::Sequence(items)
}

fn map(entries: Vec<(&str, Value)>) -> Value {
    let mut m = Mapping::new();
    for (k, v) in entries {
        m.insert(text(k), v);
    }
    Value::Mapping(m)
}

fn tagged(tag: &str, value: Value) -> Value {
    Value::Tagged(Box::new(TaggedValue { tag: tag.to_string(), value }))
}

fn inclusion(path: &str) -> Value {
    tagged("!include", text(path))
}

/// The files of a test: each under its canonical path.
struct Disk {
    files: Vec<(String, Loaded)>,
    asked: Vec<Request>,
}

impl Disk {
    fn new(files: Vec<(&str, Value)>) -> Disk {
        Disk {
            files: files.into_iter().map(|(p, v)| (p.to_string(), Loaded::Document(v))).collect(),
            asked: Vec::new(),
        }
    }

    fn with(mut self, path: &str, loaded: Loaded) -> Disk {
        self.files.push((path.to_string(), loaded));
        self
    }

    /// The path without `.` and `..`, below `/cfg` where it is relative.
    fn canonical(&self, path: &str) -> Option<String> {
        let full = if path.starts_with('/') { path.to_string() } else { format!("/cfg/{}", path) };
        let mut parts: Vec<&str> = Vec::new();
        for part in full.split('/') {
            match part {
                "" | "." => {}
                ".." => {
                    parts.pop();
                }
                other => parts.push(other),
            }
        }
        let clean = format!("/{}", parts.join("/"));
        if self.files.iter().any(|(p, _)| *p == clean) {
            Some(clean)
        } else {
            None
        }
    }

    fn answer(&mut self, request: Request, store: &mut Store) {
        self.asked.push(request.clone());
        match request {
            Request::Locate(path) => {
                let found = self.canonical(&path);
                store.record_location(path, found);
            }
            Request::Read(path) => {
                let loaded = self
                    .files
                    .iter()
                    .find(|(p, _)| *p == path)
                    .map(|(_, l)| l.clone())
                    .unwrap_or(Loaded::Unreadable);
                store.record_document(path, loaded);
            }
        }
    }

    fn resolve(&mut self, root: &str) -> Result<Value, Error> {
        let mut store = Store::new();
        for _ in 0..1000 {
            match handle_yaml(root, &store) {
                Ok(value) => return Ok(value),
                Err(Halt::Failed(error)) => return Err(error),
                Err(Halt::Need(request)) => self.answer(request, &mut store),
            }
        }
        panic!("the resolution keeps asking");
    }

    fn resolve_mapping(&mut self, root: &str) -> Result<Mapping, Error> {
        let mut store = Store::new();
        for _ in 0..1000 {
            match handle_mapping_yaml(root, &store) {
                Ok(value) => return Ok(value),
                Err(Halt::Failed(error)) => return Err(error),
                Err(Halt::Need(request)) => self.answer(request, &mut store),
            }
        }
        panic!("the resolution keeps asking");
    }
}

fn strings(items: &[&str]) -> Vec<String> {
    items.iter().map(|s| s.to_string()).collect()
}

#[test]
fn a_document_without_references_is_returned_as_it_is() {
    let doc = map(vec![("k", number(1)), ("l", list(vec![text("a"), Value::Null]))]);
    let mut disk = Disk::new(vec![("/cfg/doc.yaml", doc.clone())]);
    assert_eq!(disk.resolve("doc.yaml"), Ok(doc));
    assert_eq!(
        disk.asked,
        vec![
            Request::Locate("doc.yaml".to_string()),
            Request::Read("/cfg/doc.yaml".to_string()),
        ]
    );
}

#[test]
fn single_extension() {
    let mut disk = Disk::new(vec![
        ("/cfg/doc.yaml", map(vec![("extend", text("base.yaml")), ("k", number(1))])),
        ("/cfg/base.yaml", map(vec![("k", number(2)), ("j", number(3))])),
    ]);
    assert_eq!(disk.resolve("doc.yaml"), Ok(map(vec![("k", number(1)), ("j", number(3))])));
}

#[test]
fn list_extension_later_entry_wins_among_bases() {
    let mut disk = Disk::new(vec![
        ("/cfg/doc.yaml", map(vec![("extend", list(vec![text("a.yaml"), text("b.yaml")]))])),
        ("/cfg/a.yaml", map(vec![("k", number(1)), ("only_a", number(10))])),
        ("/cfg/b.yaml", map(vec![("k", number(2)), ("only_b", number(20))])),
    ]);
    assert_eq!(
        disk.resolve("doc.yaml"),
        Ok(map(vec![("k", number(2)), ("only_b", number(20)), ("only_a", number(10))]))
    );
}

#[test]
fn list_extension_own_key_wins_over_every_base() {
    let mut disk = Disk::new(vec![
        (
            "/cfg/doc.yaml",
            map(vec![("extend", list(vec![text("a.yaml"), text("b.yaml")])), ("k", number(0))]),
        ),
        ("/cfg/a.yaml", map(vec![("k", number(1))])),
        ("/cfg/b.yaml", map(vec![("k", number(2)), ("j", number(3))])),
    ]);
    assert_eq!(disk.resolve("doc.yaml"), Ok(map(vec![("k", number(0)), ("j", number(3))])));
}

#[test]
fn an_empty_extension_list_only_drops_the_directive() {
    let mut disk =
        Disk::new(vec![("/cfg/doc.yaml", map(vec![("extend", list(vec![])), ("k", number(1))]))]);
    assert_eq!(disk.resolve("doc.yaml"), Ok(map(vec![("k", number(1))])));
}

#[test]
fn a_null_in_the_document_defers_to_the_base() {
    let mut disk = Disk::new(vec![
        ("/cfg/doc.yaml", map(vec![("extend", text("base.yaml")), ("k", Value::Null)])),
        ("/cfg/base.yaml", map(vec![("k", number(2))])),
    ]);
    assert_eq!(disk.resolve("doc.yaml"), Ok(map(vec![("k", number(2))])));
}

#[test]
fn inclusion_at_depth() {
    let mut disk = Disk::new(vec![
        ("/cfg/doc.yaml", map(vec![("outer", map(vec![("inner", inclusion("frag.yaml"))]))])),
        ("/cfg/frag.yaml", map(vec![("v", number(1))])),
    ]);
    assert_eq!(
        disk.resolve("doc.yaml"),
        Ok(map(vec![("outer", map(vec![("inner", map(vec![("v", number(1))]))]))]))
    );
}

#[test]
fn inclusion_in_a_sequence_and_at_the_root() {
    let mut disk = Disk::new(vec![
        ("/cfg/doc.yaml", list(vec![number(1), inclusion("frag.yaml"), list(vec![inclusion("frag.yaml")])])),
        ("/cfg/frag.yaml", text("fragment")),
        ("/cfg/root.yaml", inclusion("doc.yaml")),
    ]);
    let expected = list(vec![number(1), text("fragment"), list(vec![text("fragment")])]);
    assert_eq!(disk.resolve("doc.yaml"), Ok(expected.clone()));
    assert_eq!(disk.resolve("root.yaml"), Ok(expected));
}

#[test]
fn an_included_file_is_resolved_before_it_is_spliced_in() {
    let mut disk = Disk::new(vec![
        ("/cfg/doc.yaml", map(vec![("part", inclusion("part.yaml"))])),
        (
            "/cfg/part.yaml",
            map(vec![("extend", text("base.yaml")), ("more", inclusion("leaf.yaml")), ("k", number(1))]),
        ),
        ("/cfg/base.yaml", map(vec![("k", number(2)), ("from_base", inclusion("leaf.yaml"))])),
        ("/cfg/leaf.yaml", list(vec![number(7)])),
    ]);
    assert_eq!(
        disk.resolve("doc.yaml"),
        Ok(map(vec![(
            "part",
            map(vec![
                ("more", list(vec![number(7)])),
                ("k", number(1)),
                ("from_base", list(vec![number(7)])),
            ])
        )]))
    );
}

#[test]
fn a_base_is_resolved_before_it_is_merged() {
    let mut disk = Disk::new(vec![
        ("/cfg/doc.yaml", map(vec![("extend", text("mid.yaml")), ("a", number(1))])),
        ("/cfg/mid.yaml", map(vec![("extend", text("base.yaml")), ("b", number(2))])),
        ("/cfg/base.yaml", map(vec![("a", number(0)), ("b", number(0)), ("c", number(3))])),
    ]);
    assert_eq!(
        disk.resolve("doc.yaml"),
        Ok(map(vec![("a", number(1)), ("b", number(2)), ("c", number(3))]))
    );
}

#[test]
fn a_relative_reference_is_scoped_to_the_directory_of_its_file() {
    let mut disk = Disk::new(vec![
        ("/cfg/doc.yaml", map(vec![("sub", inclusion("sub/dir/doc.yaml"))])),
        ("/cfg/sub/dir/doc.yaml", map(vec![("extend", text("base.yaml")), ("f", inclusion("frag.yaml"))])),
        ("/cfg/sub/dir/frag.yaml", number(1)),
        ("/cfg/sub/dir/base.yaml", map(vec![("b", number(1))])),
        ("/cfg/frag.yaml", number(2)),
        ("/cfg/base.yaml", map(vec![("b", number(2))])),
    ]);
    assert_eq!(
        disk.resolve("doc.yaml"),
        Ok(map(vec![("sub", map(vec![("f", number(1)), ("b", number(1))]))]))
    );
    assert!(disk.asked.contains(&Request::Locate("/cfg/sub/dir/frag.yaml".to_string())));
    assert!(!disk.asked.contains(&Request::Locate("/cfg/frag.yaml".to_string())));
}

#[test]
fn a_reference_may_climb_out_of_its_directory() {
    let mut disk = Disk::new(vec![
        ("/cfg/sub/doc.yaml", map(vec![("up", inclusion("../shared/frag.yaml"))])),
        ("/cfg/shared/frag.yaml", number(9)),
    ]);
    assert_eq!(disk.resolve("sub/doc.yaml"), Ok(map(vec![("up", number(9))])));
    assert!(disk.asked.contains(&Request::Locate("/cfg/sub/../shared/frag.yaml".to_string())));
    assert!(disk.asked.contains(&Request::Read("/cfg/shared/frag.yaml".to_string())));
}

#[test]
fn an_absolute_reference_stands_as_it_is() {
    let mut disk = Disk::new(vec![
        ("/cfg/doc.yaml", map(vec![("abs", inclusion("/etc/frag.yaml"))])),
        ("/etc/frag.yaml", number(3)),
    ]);
    assert_eq!(disk.resolve("doc.yaml"), Ok(map(vec![("abs", number(3))])));
    assert!(disk.asked.contains(&Request::Locate("/etc/frag.yaml".to_string())));
}

#[test]
fn a_missing_file_fails_the_whole_resolution() {
    let mut disk = Disk::new(vec![
        ("/cfg/doc.yaml", map(vec![("a", number(1)), ("b", map(vec![("c", inclusion("gone.yaml"))]))])),
    ]);
    assert_eq!(
        disk.resolve("doc.yaml"),
        Err(Error {
            kind: ErrorKind::NotFound,
            file: "/cfg/gone.yaml".to_string(),
            trail: strings(&["/cfg/doc.yaml"]),
        })
    );
}

#[test]
fn a_missing_base_fails_the_whole_resolution() {
    let mut disk = Disk::new(vec![
        ("/cfg/doc.yaml", map(vec![("extend", list(vec![text("a.yaml"), text("gone.yaml")]))])),
        ("/cfg/a.yaml", map(vec![("k", number(1))])),
    ]);
    assert_eq!(
        disk.resolve("doc.yaml"),
        Err(Error {
            kind: ErrorKind::NotFound,
            file: "/cfg/gone.yaml".to_string(),
            trail: strings(&["/cfg/doc.yaml"]),
        })
    );
}

#[test]
fn a_missing_root_is_not_found() {
    let mut disk = Disk::new(vec![]);
    assert_eq!(
        disk.resolve("doc.yaml"),
        Err(Error { kind: ErrorKind::NotFound, file: "doc.yaml".to_string(), trail: vec![] })
    );
}

#[test]
fn a_failure_carries_the_files_that_were_being_resolved() {
    let mut disk = Disk::new(vec![
        ("/cfg/doc.yaml", map(vec![("extend", text("mid.yaml"))])),
        ("/cfg/mid.yaml", map(vec![("x", inclusion("deep/leaf.yaml"))])),
        ("/cfg/deep/leaf.yaml", list(vec![inclusion("gone.yaml")])),
    ]);
    assert_eq!(
        disk.resolve("doc.yaml"),
        Err(Error {
            kind: ErrorKind::NotFound,
            file: "/cfg/deep/gone.yaml".to_string(),
            trail: strings(&["/cfg/deep/leaf.yaml", "/cfg/mid.yaml", "/cfg/doc.yaml"]),
        })
    );
}

#[test]
fn a_directive_that_is_neither_string_nor_sequence_is_invalid() {
    let mut disk = Disk::new(vec![("/cfg/doc.yaml", map(vec![("extend", number(1))]))]);
    assert_eq!(
        disk.resolve("doc.yaml"),
        Err(Error {
            kind: ErrorKind::InvalidDirective,
            file: "/cfg/doc.yaml".to_string(),
            trail: strings(&["/cfg/doc.yaml"]),
        })
    );
    let mut disk = Disk::new(vec![(
        "/cfg/doc.yaml",
        map(vec![("extend", map(vec![("file", text("base.yaml"))]))]),
    )]);
    assert_eq!(disk.resolve("doc.yaml").map_err(|e| e.kind), Err(ErrorKind::InvalidDirective));
    let mut disk = Disk::new(vec![("/cfg/doc.yaml", map(vec![("extend", Value::Null)]))]);
    assert_eq!(disk.resolve("doc.yaml").map_err(|e| e.kind), Err(ErrorKind::InvalidDirective));
    let mut disk =
        Disk::new(vec![("/cfg/doc.yaml", map(vec![("extend", tagged("!x", text("base.yaml")))]))]);
    assert_eq!(disk.resolve("doc.yaml").map_err(|e| e.kind), Err(ErrorKind::InvalidDirective));
}

#[test]
fn a_directive_list_that_holds_a_non_string_is_invalid() {
    let mut disk = Disk::new(vec![
        ("/cfg/doc.yaml", map(vec![("extend", list(vec![text("a.yaml"), number(2)]))])),
        ("/cfg/a.yaml", map(vec![("k", number(1))])),
    ]);
    assert_eq!(
        disk.resolve("doc.yaml"),
        Err(Error {
            kind: ErrorKind::InvalidDirective,
            file: "/cfg/doc.yaml".to_string(),
            trail: strings(&["/cfg/doc.yaml"]),
        })
    );
}

#[test]
fn an_inclusion_that_names_no_string_is_invalid() {
    let mut disk = Disk::new(vec![(
        "/cfg/doc.yaml",
        map(vec![("x", tagged("!include", list(vec![text("a.yaml")])))]),
    )]);
    assert_eq!(
        disk.resolve("doc.yaml"),
        Err(Error {
            kind: ErrorKind::InvalidInclusionTarget,
            file: "/cfg/doc.yaml".to_string(),
            trail: strings(&["/cfg/doc.yaml"]),
        })
    );
}

#[test]
fn a_base_that_is_no_mapping_fails() {
    let mut disk = Disk::new(vec![
        ("/cfg/doc.yaml", map(vec![("extend", text("base.yaml"))])),
        ("/cfg/base.yaml", list(vec![number(1)])),
    ]);
    assert_eq!(
        disk.resolve("doc.yaml"),
        Err(Error {
            kind: ErrorKind::NotAMapping,
            file: "/cfg/base.yaml".to_string(),
            trail: strings(&["/cfg/doc.yaml"]),
        })
    );
}

#[test]
fn a_malformed_file_is_a_parse_error() {
    let mut disk = Disk::new(vec![("/cfg/doc.yaml", map(vec![("x", inclusion("bad.yaml"))]))])
        .with("/cfg/bad.yaml", Loaded::Malformed);
    assert_eq!(
        disk.resolve("doc.yaml"),
        Err(Error {
            kind: ErrorKind::ParseError,
            file: "/cfg/bad.yaml".to_string(),
            trail: strings(&["/cfg/bad.yaml", "/cfg/doc.yaml"]),
        })
    );
}

#[test]
fn an_unreadable_file_is_an_io_error() {
    let mut disk = Disk::new(vec![("/cfg/doc.yaml", map(vec![("extend", text("locked.yaml"))]))])
        .with("/cfg/locked.yaml", Loaded::Unreadable);
    assert_eq!(
        disk.resolve("doc.yaml"),
        Err(Error {
            kind: ErrorKind::IoError,
            file: "/cfg/locked.yaml".to_string(),
            trail: strings(&["/cfg/locked.yaml", "/cfg/doc.yaml"]),
        })
    );
}

#[test]
fn a_file_that_extends_itself_is_a_cyclic_reference() {
    let mut disk = Disk::new(vec![("/cfg/doc.yaml", map(vec![("extend", text("doc.yaml"))]))]);
    assert_eq!(
        disk.resolve("doc.yaml"),
        Err(Error {
            kind: ErrorKind::CyclicReference,
            file: "/cfg/doc.yaml".to_string(),
            trail: strings(&["/cfg/doc.yaml"]),
        })
    );
}

#[test]
fn two_files_that_include_each_other_are_a_cyclic_reference() {
    let mut disk = Disk::new(vec![
        ("/cfg/a.yaml", map(vec![("b", inclusion("b.yaml"))])),
        ("/cfg/b.yaml", map(vec![("a", inclusion("./a.yaml"))])),
    ]);
    assert_eq!(
        disk.resolve("a.yaml"),
        Err(Error {
            kind: ErrorKind::CyclicReference,
            file: "/cfg/a.yaml".to_string(),
            trail: strings(&["/cfg/b.yaml", "/cfg/a.yaml"]),
        })
    );
}

#[test]
fn a_file_may_be_used_twice_where_it_is_not_inside_itself() {
    let mut disk = Disk::new(vec![
        ("/cfg/doc.yaml", map(vec![("extend", text("base.yaml")), ("again", inclusion("base.yaml"))])),
        ("/cfg/base.yaml", map(vec![("k", number(1))])),
    ]);
    assert_eq!(
        disk.resolve("doc.yaml"),
        Ok(map(vec![("again", map(vec![("k", number(1))])), ("k", number(1))]))
    );
    let reads = disk.asked.iter().filter(|r| matches!(r, Request::Read(_))).count();
    assert_eq!(reads, 2);
}

#[test]
fn another_tag_passes_through_with_what_it_holds() {
    let node = tagged("!env", map(vec![("inner", inclusion("frag.yaml"))]));
    let mut disk = Disk::new(vec![("/cfg/doc.yaml", map(vec![("x", node.clone())]))]);
    assert_eq!(disk.resolve("doc.yaml"), Ok(map(vec![("x", node)])));
}

#[test]
fn the_tag_is_matched_exactly() {
    let node = tagged("!Include", text("frag.yaml"));
    let mut disk = Disk::new(vec![("/cfg/doc.yaml", list(vec![node.clone()]))]);
    assert_eq!(disk.resolve("doc.yaml"), Ok(list(vec![node])));
}

#[test]
fn extension_is_resolved_at_the_root_only() {
    let nested = map(vec![("extend", text("base.yaml")), ("k", number(1))]);
    let mut disk = Disk::new(vec![("/cfg/doc.yaml", map(vec![("nested", nested.clone())]))]);
    assert_eq!(disk.resolve("doc.yaml"), Ok(map(vec![("nested", nested)])));
}

#[test]
fn keys_are_kept_as_they_are() {
    let mut m = Mapping::new();
    m.insert(inclusion("frag.yaml"), inclusion("frag.yaml"));
    let mut expected = Mapping::new();
    expected.insert(inclusion("frag.yaml"), number(1));
    let mut disk = Disk::new(vec![("/cfg/doc.yaml", Value::Mapping(m)), ("/cfg/frag.yaml", number(1))]);
    assert_eq!(disk.resolve("doc.yaml"), Ok(Value::Mapping(expected)));
}

#[test]
fn questions_come_one_by_one_in_the_order_of_the_document() {
    let mut disk = Disk::new(vec![
        ("/cfg/doc.yaml", map(vec![("extend", text("base.yaml")), ("x", inclusion("frag.yaml"))])),
        ("/cfg/base.yaml", map(vec![("y", number(1))])),
        ("/cfg/frag.yaml", number(2)),
    ]);
    assert_eq!(disk.resolve("doc.yaml"), Ok(map(vec![("x", number(2)), ("y", number(1))])));
    assert_eq!(
        disk.asked,
        vec![
            Request::Locate("doc.yaml".to_string()),
            Request::Read("/cfg/doc.yaml".to_string()),
            Request::Locate("/cfg/base.yaml".to_string()),
            Request::Read("/cfg/base.yaml".to_string()),
            Request::Locate("/cfg/frag.yaml".to_string()),
            Request::Read("/cfg/frag.yaml".to_string()),
        ]
    );
}

#[test]
fn an_empty_store_asks_where_the_root_is() {
    let store = Store::new();
    assert_eq!(
        handle_yaml("doc.yaml", &store),
        Err(Halt::Need(Request::Locate("doc.yaml".to_string())))
    );
    assert_eq!(
        handle_mapping_yaml("doc.yaml", &store),
        Err(Halt::Need(Request::Locate("doc.yaml".to_string())))
    );
}

#[test]
fn a_mapping_is_required_by_handle_mapping_yaml() {
    let mut disk = Disk::new(vec![
        ("/cfg/doc.yaml", map(vec![("extend", text("base.yaml")), ("k", number(1))])),
        ("/cfg/base.yaml", map(vec![("j", number(2))])),
        ("/cfg/list.yaml", list(vec![number(1)])),
    ]);
    let mut expected = Mapping::new();
    expected.insert(text("k"), number(1));
    expected.insert(text("j"), number(2));
    assert_eq!(disk.resolve_mapping("doc.yaml"), Ok(expected));
    assert_eq!(
        disk.resolve_mapping("list.yaml"),
        Err(Error { kind: ErrorKind::NotAMapping, file: "list.yaml".to_string(), trail: vec![] })
    );
}

#[test]
fn from_relative_path_leaves_an_absolute_path_alone() {
    let store = Store::new();
    assert_eq!(from_relative_path("/etc/base.yaml", "/cfg", &store), Ok("/etc/base.yaml".to_string()));
}

#[test]
fn from_relative_path_joins_a_relative_path_to_the_directory() {
    let mut store = Store::new();
    assert_eq!(
        from_relative_path("base.yaml", "/cfg/sub", &store),
        Err(Halt::Need(Request::Locate("/cfg/sub/base.yaml".to_string())))
    );
    store.record_location("/cfg/sub/base.yaml".to_string(), Some("/real/base.yaml".to_string()));
    assert_eq!(from_relative_path("base.yaml", "/cfg/sub", &store), Ok("/real/base.yaml".to_string()));
}

#[test]
fn from_relative_path_fails_where_the_file_is_missing() {
    let mut store = Store::new();
    store.record_location("/cfg/gone.yaml".to_string(), None);
    assert_eq!(
        from_relative_path("gone.yaml", "/cfg", &store),
        Err(Halt::Failed(Error {
            kind: ErrorKind::NotFound,
            file: "/cfg/gone.yaml".to_string(),
            trail: vec![],
        }))
    );
}

#[test]
fn a_path_without_a_parent_directory_cannot_hold_a_document() {
    let mut store = Store::new();
    store.record_location("root".to_string(), Some("/".to_string()));
    store.record_document("/".to_string(), Loaded::Document(number(1)));
    assert_eq!(
        handle_yaml("root", &store),
        Err(Halt::Failed(Error {
            kind: ErrorKind::IoError,
            file: "/".to_string(),
            trail: strings(&["/"]),
        }))
    );
}

#[test]
fn no_question_is_asked_twice() {
    let mut disk = Disk::new(vec![
        (
            "/cfg/doc.yaml",
            map(vec![
                ("extend", list(vec![text("a.yaml"), text("b.yaml")])),
                ("x", inclusion("a.yaml")),
                ("y", list(vec![inclusion("b.yaml"), inclusion("sub/c.yaml")])),
            ]),
        ),
        ("/cfg/a.yaml", map(vec![("k", inclusion("sub/c.yaml"))])),
        ("/cfg/b.yaml", map(vec![("extend", text("a.yaml"))])),
        ("/cfg/sub/c.yaml", map(vec![("up", inclusion("../d.yaml"))])),
        ("/cfg/d.yaml", number(4)),
    ]);
    assert!(disk.resolve("doc.yaml").is_ok());
    for (i, first) in disk.asked.iter().enumerate() {
        for second in &disk.asked[i + 1..] {
            assert_ne!(first, second);
        }
    }
}

#[test]
fn answers_that_were_not_asked_for_change_nothing() {
    let mut disk = Disk::new(vec![
        ("/cfg/doc.yaml", map(vec![("extend", text("base.yaml")), ("k", number(1))])),
        ("/cfg/base.yaml", map(vec![("j", inclusion("gone.yaml"))])),
    ]);
    let mut store = Store::new();
    let outcome = loop {
        match handle_yaml("doc.yaml", &store) {
            Err(Halt::Need(request)) => disk.answer(request, &mut store),
            other => break other,
        }
    };
    assert_eq!(outcome.clone().map_err(|_| ()), Err(()));
    store.record_location("other.yaml".to_string(), Some("/cfg/other.yaml".to_string()));
    store.record_document("/cfg/other.yaml".to_string(), Loaded::Document(number(1)));
    store.record_location("unrelated".to_string(), None);
    assert_eq!(handle_yaml("doc.yaml", &store), outcome);
}

#[test]
fn the_answer_that_a_file_is_missing_fails_the_call_wherever_it_was_asked() {
    let mut disk = Disk::new(vec![
        ("/cfg/doc.yaml", map(vec![("extend", text("base.yaml")), ("k", number(1))])),
        (
            "/cfg/base.yaml",
            map(vec![("deep", list(vec![number(1), map(vec![("x", inclusion("sub/leaf.yaml"))])]))]),
        ),
        ("/cfg/sub/leaf.yaml", list(vec![inclusion("../gone/away.yaml")])),
    ]);
    let mut store = Store::new();
    let asked = loop {
        match handle_yaml("doc.yaml", &store) {
            Err(Halt::Need(Request::Locate(path))) if disk.canonical(&path).is_none() => break path,
            Err(Halt::Need(request)) => disk.answer(request, &mut store),
            other => panic!("the resolution ended early: {:?}", other),
        }
    };
    assert_eq!(asked, "/cfg/sub/../gone/away.yaml".to_string());
    store.record_location(asked.clone(), None);
    assert_eq!(
        handle_yaml("doc.yaml", &store),
        Err(Halt::Failed(Error {
            kind: ErrorKind::NotFound,
            file: asked,
            trail: strings(&["/cfg/sub/leaf.yaml", "/cfg/base.yaml", "/cfg/doc.yaml"]),
        }))
    );
}

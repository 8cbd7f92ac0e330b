use std::sync::Arc;
use acd::ast::Expr::Value;
use acd::ast::File;
use acd::cache::{Cache, Entry};
use acd::common::{Error, HasId, Identifier, Share};
use acd::engine::Core;
use acd::file::{disk_path, DiskFs, Fs, MockFs};

fn program(n: i64) -> File {
    File { imports: vec![], expression: Value(n) }
}

fn value_of(r: &Result<Arc<File>, Error>) -> Option<i64> {
    match r {
        Ok(f) => match f.expression {
            Value(n) => Some(n),
            _ => None,
        },
        _ => None,
    }
}

#[test]
fn mock_fs_reads_what_was_put() {
    let mut fs = MockFs::new(vec![(Identifier::of("a"), program(1)), (Identifier::of("b"), program(2))]);
    assert_eq!(value_of(&fs.read(&Identifier::of("b"))), Some(2));
    assert_eq!(value_of(&fs.read(&Identifier::of("a"))), Some(1));
}

#[test]
fn mock_fs_last_listed_file_wins() {
    let mut fs = MockFs::new(vec![(Identifier::of("a"), program(1)), (Identifier::of("a"), program(2))]);
    assert_eq!(value_of(&fs.read(&Identifier::of("a"))), Some(2));
}

#[test]
fn mock_fs_missing_file() {
    let mut fs = MockFs::new(vec![(Identifier::of("a"), program(1))]);
    assert!(matches!(fs.read(&Identifier::of("z")), Err(Error::FileNotFound(i)) if i.value == "z"));
    // Reading a missing name takes nothing away.
    assert_eq!(value_of(&fs.read(&Identifier::of("a"))), Some(1));
}

#[test]
fn core_reads_each_file_once() {
    let fs = MockFs::new(vec![(Identifier::of("a"), program(3))]);
    let mut core = Core::new(fs);
    // The second read is answered from the cache: the file system would
    // refuse a second read of the same file.
    for _ in 0..3 {
        match core.read(&Identifier::of("a")) {
            Ok(f) => assert!(matches!(f.expression, Value(3))),
            Err(_) => panic!("expected the file"),
        }
    }
    assert!(matches!(core.read(&Identifier::of("b")), Err(Error::FileNotFound(i)) if i.value == "b"));
    let mut fs = core.into_fs();
    // "b" was missing and reading it took nothing; "a" is taken.
    assert!(matches!(fs.read(&Identifier::of("b")), Err(Error::FileNotFound(_))));
}

#[test]
fn cache_initializes_once() {
    let mut cache = Cache::new();
    assert_eq!(cache.len(), 0);
    let key = Identifier::of("k");
    let first = cache.get(&key, |_: &Identifier| -> Entry { Ok(Arc::new(program(1))) });
    assert_eq!(cache.len(), 1);
    let second = cache.get(&key, |_: &Identifier| -> Entry { Ok(Arc::new(program(2))) });
    assert_eq!(cache.len(), 1);
    match (first, second) {
        (Ok(a), Ok(b)) => {
            assert!(matches!(a.expression, Value(1)));
            assert!(matches!(b.expression, Value(1)));
            assert!(Arc::ptr_eq(&a, &b));
        },
        _ => panic!("expected files"),
    }
    let other = cache.get(&Identifier::of("j"), |i: &Identifier| -> Entry { Err(Error::FileNotFound(i.clone())) });
    assert_eq!(cache.len(), 2);
    assert!(matches!(other, Err(Error::FileNotFound(i)) if i.value == "j"));
    assert!(cache.find(&"j".to_string()).is_some());
    assert!(cache.find(&"x".to_string()).is_none());
}

#[test]
fn cache_insert_and_find() {
    let mut cache = Cache::new();
    cache.insert("a".to_string(), Ok(Arc::new(program(8))));
    match cache.find(&"a".to_string()) {
        Some(Ok(f)) => assert!(matches!(f.expression, Value(8))),
        _ => panic!("expected the file"),
    }
    assert_eq!(cache.len(), 1);
}

#[test]
fn json_file_text() {
    let f = acd::file::File::new("{\"imports\": []}".to_string());
    assert_eq!(f.json(), "{\"imports\": []}");
    let g = f.share();
    assert_eq!(g.json(), f.json());
    assert_eq!(f.id().as_str(), "{\"imports\": []}");
}

#[test]
fn ids() {
    let a = Identifier::of("alpha");
    let b = Identifier::of("beta");
    assert_eq!(a.id(), "alpha".to_string());
    assert_eq!((&a, &b).id(), ("alpha".to_string(), "beta".to_string()));
    assert_eq!((&a, &b, &a).id(), ("alpha".to_string(), "beta".to_string(), "alpha".to_string()));
    assert_eq!(DiskFs().id(), "/path/to/fs");
    assert_eq!(a.text(), "alpha");
}

#[test]
fn mock_ids_name_their_files() {
    let one = MockFs::new(vec![(Identifier::of("a"), program(1))]);
    let same = MockFs::new(vec![(Identifier::of("a"), program(1))]);
    let other_file = MockFs::new(vec![(Identifier::of("a"), program(2))]);
    let other_name = MockFs::new(vec![(Identifier::of("b"), program(1))]);
    let empty = MockFs::new(vec![]);
    assert_eq!(one.id(), same.id());
    assert_ne!(one.id(), other_file.id());
    assert_ne!(one.id(), other_name.id());
    assert_ne!(one.id(), empty.id());
    assert_eq!(one.count(), 1);
}

#[test]
fn core_remembers_missing_files() {
    let mut core = Core::new(MockFs::new(vec![]));
    for _ in 0..2 {
        assert!(matches!(core.read(&Identifier::of("gone")), Err(Error::FileNotFound(i)) if i.value == "gone"));
    }
}

#[test]
fn core_parses_each_name_and_text_once() {
    let mut core = Core::new(MockFs::new(vec![]));
    let text = acd::file::File::new("seven".to_string());
    let first = core.parse(&Identifier::of("a"), &text, |_: &Identifier, _: &acd::file::File| -> Entry {
        Ok(Arc::new(program(7)))
    });
    let again = core.parse(&Identifier::of("a"), &text, |_: &Identifier, _: &acd::file::File| -> Entry {
        Ok(Arc::new(program(8)))
    });
    let other_name = core.parse(&Identifier::of("b"), &text, |_: &Identifier, _: &acd::file::File| -> Entry {
        Ok(Arc::new(program(9)))
    });
    match (first, again, other_name) {
        (Ok(a), Ok(b), Ok(c)) => {
            assert!(matches!(a.expression, Value(7)));
            assert!(Arc::ptr_eq(&a, &b));
            assert!(matches!(c.expression, Value(9)));
        },
        _ => panic!("expected programs"),
    }
    let bad = acd::file::File::new("???".to_string());
    let failed = core.parse(&Identifier::of("c"), &bad, |i: &Identifier, _: &acd::file::File| -> Entry {
        Err(Error::CouldNotParse(i.clone()))
    });
    assert!(matches!(failed, Err(Error::CouldNotParse(i)) if i.value == "c"));
    let cached = core.parse(&Identifier::of("c"), &bad, |_: &Identifier, _: &acd::file::File| -> Entry {
        Ok(Arc::new(program(1)))
    });
    assert!(matches!(cached, Err(Error::CouldNotParse(i)) if i.value == "c"));
}

#[test]
fn parse_keys_keep_names_apart() {
    // "a1" with text "b" and "a" with text "1b" would clash if the name were
    // simply put in front of the text.
    let mut core = Core::new(MockFs::new(vec![]));
    let first = core.parse(&Identifier::of("a1"), &acd::file::File::new("b".to_string()), |_: &Identifier, _: &acd::file::File| -> Entry {
        Ok(Arc::new(program(1)))
    });
    let second = core.parse(&Identifier::of("a"), &acd::file::File::new("1b".to_string()), |_: &Identifier, _: &acd::file::File| -> Entry {
        Ok(Arc::new(program(2)))
    });
    assert!(matches!(first, Ok(f) if matches!(f.expression, Value(1))));
    assert!(matches!(second, Ok(f) if matches!(f.expression, Value(2))));
}

#[test]
fn sharing_results() {
    let ok: Result<acd::file::File, Error> = Ok(acd::file::File::new("x".to_string()));
    match ok.share() {
        Ok(f) => assert_eq!(f.json(), "x"),
        Err(_) => panic!("expected the file"),
    }
    let err: Result<acd::file::File, Error> = Err(Error::NoSuchArg(Identifier::of("f"), 2));
    assert!(matches!(err.share(), Err(Error::NoSuchArg(i, 2)) if i.value == "f"));
}

#[test]
fn disk_paths() {
    assert_eq!(disk_path(&Identifier::of("main")), "main.acd.json");
}

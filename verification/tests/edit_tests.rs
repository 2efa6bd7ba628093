use libconfig::Config;
use libconfig::Format;
use libconfig::LibType;
use libconfig::LibconfigError;

#[test]
fn write_setting() {
    let mut cfg = Config::new();
    let text = "val_int = 42;\n";
    assert_eq!(cfg.read_str(text), Ok(()));
    let root = cfg.get_root();
    let setting = root.add(&mut cfg, "new_val", LibType::TypeInt).unwrap();
    assert_eq!(setting.set_i32(&mut cfg, 5), Ok(()));
    let out = cfg.write_str();
    assert!(out.contains("new_val = 5;"));
}

#[test]
fn round_trip_document() {
    let mut cfg = Config::new();
    let text = "val_int = 42;\nval_u64 = 1099511627775L;\nsome_f32 = 0.48;\nname = \"Some \\\"quoted\\\" name\\n\";\nouter = { inner = 3; flag = true; };\narr = [3, 5, 8];\nl = ( 1, \"x\", ( 2 ) );\nh = 0x1A;\n";
    assert_eq!(cfg.read_str(text), Ok(()));
    let s1 = cfg.write_str();
    let mut cfg2 = Config::new();
    assert_eq!(cfg2.read_str(&s1), Ok(()));
    let s2 = cfg2.write_str();
    assert_eq!(s1, s2);
    assert_eq!(cfg2.lookup_i32("val_int"), Some(42));
    assert_eq!(cfg2.lookup_i64("val_u64"), Some(1099511627775));
    assert_eq!(
        cfg2.lookup_string("name"),
        Some(String::from("Some \"quoted\" name\n"))
    );
    assert_eq!(cfg2.lookup_i32("outer.inner"), Some(3));
    assert_eq!(cfg2.lookup_bool("outer.flag"), Some(true));
    assert_eq!(cfg2.lookup_i32("arr.2"), Some(8));
    assert_eq!(cfg2.lookup_i32("l.2.0"), Some(2));
    assert_eq!(cfg2.lookup_i32("h"), Some(26));
    let h = cfg2.lookup("h").unwrap();
    assert_eq!(h.get_format(&cfg2), Some(Format::FormatHex));
}

#[test]
fn remove_at_reindexes_siblings() {
    let mut cfg = Config::new();
    assert_eq!(cfg.read_str("arr = [3, 5, 8];"), Ok(()));
    let arr = cfg.lookup("arr").unwrap();
    assert_eq!(arr.remove_idx(&mut cfg, 1), Ok(()));
    assert_eq!(arr.get_length(&cfg), Ok(2));
    let mut it = arr.into_iter(&cfg);
    let first = it.next(&cfg).unwrap();
    let second = it.next(&cfg).unwrap();
    assert!(it.next(&cfg).is_none());
    assert_eq!(first.try_i32(&cfg), Ok(3));
    assert_eq!(second.try_i32(&cfg), Ok(8));
    assert_eq!(first.get_index(&cfg), Some(0));
    assert_eq!(second.get_index(&cfg), Some(1));
}

#[test]
fn remove_by_name() {
    let mut cfg = Config::new();
    assert_eq!(cfg.read_str("outer = { inner = 3; };\nval = 1;"), Ok(()));
    let root = cfg.get_root();
    assert_eq!(root.remove(&mut cfg, "outer"), Ok(()));
    assert!(!cfg.path_exists("outer"));
    assert!(cfg.path_exists("val"));
    assert_eq!(root.remove(&mut cfg, "outer"), Err(LibconfigError::NotFound));
}

#[test]
fn removed_subtree_handles_go_stale() {
    let mut cfg = Config::new();
    assert_eq!(cfg.read_str("outer = { inner = 3; };"), Ok(()));
    let inner = cfg.lookup("outer.inner").unwrap();
    let outer = cfg.lookup("outer").unwrap();
    assert_eq!(cfg.get_root().remove(&mut cfg, "outer"), Ok(()));
    assert!(!cfg.is_valid(inner));
    assert!(!cfg.is_valid(outer));
    assert_eq!(inner.try_i32(&cfg), Err(LibconfigError::StaleReference));
    assert_eq!(inner.get_type(&cfg), LibType::TypeNone);
    assert!(inner.get_name(&cfg).is_none());
}

#[test]
fn add_rejects_duplicates_and_bad_names() {
    let mut cfg = Config::new();
    assert_eq!(cfg.read_str("val = 1;"), Ok(()));
    let root = cfg.get_root();
    assert_eq!(
        root.add(&mut cfg, "val", LibType::TypeInt).unwrap_err(),
        LibconfigError::DuplicateName
    );
    assert_eq!(
        root.add(&mut cfg, "9bad", LibType::TypeInt).unwrap_err(),
        LibconfigError::InvalidName
    );
    assert_eq!(
        root.add(&mut cfg, "", LibType::TypeInt).unwrap_err(),
        LibconfigError::InvalidName
    );
}

#[test]
fn add_to_scalar_is_not_aggregate() {
    let mut cfg = Config::new();
    assert_eq!(cfg.read_str("val = 1;"), Ok(()));
    let v = cfg.lookup("val").unwrap();
    assert_eq!(
        v.add(&mut cfg, "x", LibType::TypeInt).unwrap_err(),
        LibconfigError::NotAggregate
    );
}

#[test]
fn array_elements_are_uniform_scalars() {
    let mut cfg = Config::new();
    assert_eq!(cfg.read_str("arr = [3, 5];"), Ok(()));
    let arr = cfg.lookup("arr").unwrap();
    assert_eq!(
        arr.add(&mut cfg, "", LibType::TypeBoolean).unwrap_err(),
        LibconfigError::KindMismatch
    );
    assert_eq!(
        arr.add(&mut cfg, "", LibType::TypeGroup).unwrap_err(),
        LibconfigError::KindMismatch
    );
    assert_eq!(
        arr.add(&mut cfg, "x", LibType::TypeInt).unwrap_err(),
        LibconfigError::InvalidName
    );
    let e = arr.add(&mut cfg, "", LibType::TypeInt).unwrap();
    assert_eq!(e.set_i32(&mut cfg, 13), Ok(()));
    assert_eq!(cfg.lookup_i32("arr.2"), Some(13));
}

#[test]
fn set_value_checks_the_declared_kind() {
    let mut cfg = Config::new();
    assert_eq!(cfg.read_str("val = 1;\nflag = true;"), Ok(()));
    let v = cfg.lookup("val").unwrap();
    assert_eq!(v.set_bool(&mut cfg, true), Err(LibconfigError::KindMismatch));
    assert_eq!(v.set_i64(&mut cfg, 2), Err(LibconfigError::KindMismatch));
    assert_eq!(v.set_i32(&mut cfg, 2), Ok(()));
    assert_eq!(cfg.lookup_i32("val"), Some(2));
    let f = cfg.lookup("flag").unwrap();
    assert_eq!(f.set_bool(&mut cfg, false), Ok(()));
    assert_eq!(cfg.lookup_bool("flag"), Some(false));
}

#[test]
fn set_format_is_a_pure_display_hint() {
    let mut cfg = Config::new();
    assert_eq!(cfg.read_str("val = 26;\nname = \"x\";"), Ok(()));
    let v = cfg.lookup("val").unwrap();
    assert_eq!(v.set_format(&mut cfg, Format::FormatHex), Ok(()));
    assert_eq!(cfg.lookup_i32("val"), Some(26));
    assert!(cfg.write_str().contains("0x1a"));
    let s = cfg.lookup("name").unwrap();
    assert_eq!(
        s.set_format(&mut cfg, Format::FormatHex),
        Err(LibconfigError::NotApplicable)
    );
}

#[test]
fn narrowing_overflow_is_reported() {
    let mut cfg = Config::new();
    assert_eq!(cfg.read_str("big = 1099511627775L;\nsmall = 7L;"), Ok(()));
    let big = cfg.lookup("big").unwrap();
    assert_eq!(big.try_i32(&cfg), Err(LibconfigError::Overflow));
    assert_eq!(cfg.lookup_i32("big"), None);
    let small = cfg.lookup("small").unwrap();
    assert_eq!(small.try_i32(&cfg), Ok(7));
    assert_eq!(cfg.lookup_i64("big"), Some(1099511627775));
}

#[test]
fn widening_int_reads() {
    let mut cfg = Config::new();
    assert_eq!(cfg.read_str("val = 42;"), Ok(()));
    assert_eq!(cfg.lookup_i64("val"), Some(42));
    let v = cfg.lookup("val").unwrap();
    assert_eq!(v.try_i64(&cfg), Ok(42));
    assert_eq!(v.try_string(&cfg), Err(LibconfigError::TypeMismatch));
}

#[test]
fn set_str_and_float_text() {
    let mut cfg = Config::new();
    assert_eq!(cfg.read_str("name = \"a\";\npi = 3.14;"), Ok(()));
    let s = cfg.lookup("name").unwrap();
    assert_eq!(s.set_str(&mut cfg, "line\nbreak \"q\""), Ok(()));
    assert_eq!(
        cfg.lookup_string("name"),
        Some(String::from("line\nbreak \"q\""))
    );
    let p = cfg.lookup("pi").unwrap();
    assert_eq!(p.set_float_text(&mut cfg, "2.5e3"), Ok(()));
    assert_eq!(cfg.lookup_float_text("pi"), Some(String::from("2.5e3")));
    assert_eq!(
        p.set_float_text(&mut cfg, "not a float"),
        Err(LibconfigError::KindMismatch)
    );
    let out = cfg.write_str();
    let mut cfg2 = Config::new();
    assert_eq!(cfg2.read_str(&out), Ok(()));
    assert_eq!(
        cfg2.lookup_string("name"),
        Some(String::from("line\nbreak \"q\""))
    );
    assert_eq!(cfg2.lookup_float_text("pi"), Some(String::from("2.5e3")));
}

#[test]
fn options_and_include_dir_are_kept() {
    let mut cfg = Config::new();
    cfg.set_options(3);
    cfg.set_include_path("conf.d");
    assert_eq!(cfg.read_str("val = 1;"), Ok(()));
    assert_eq!(cfg.get_options(), 3);
    assert_eq!(cfg.get_include_path(), Some(String::from("conf.d")));
}

#[test]
fn build_programmatically_and_serialize() {
    let mut cfg = Config::new();
    let root = cfg.get_root();
    let grp = root.add(&mut cfg, "server", LibType::TypeGroup).unwrap();
    let port = grp.add(&mut cfg, "port", LibType::TypeInt).unwrap();
    assert_eq!(port.set_i32(&mut cfg, 8080), Ok(()));
    let host = grp.add(&mut cfg, "host", LibType::TypeString).unwrap();
    assert_eq!(host.set_str(&mut cfg, "localhost"), Ok(()));
    let out = cfg.write_str();
    let mut cfg2 = Config::new();
    assert_eq!(cfg2.read_str(&out), Ok(()));
    assert_eq!(cfg2.lookup_i32("server.port"), Some(8080));
    assert_eq!(cfg2.lookup_string("server.host"), Some(String::from("localhost")));
}

#[test]
fn int64_boundaries_round_trip() {
    let mut cfg = Config::new();
    let root = cfg.get_root();
    let a = root.add(&mut cfg, "min64", LibType::TypeInt64).unwrap();
    assert_eq!(a.set_i64(&mut cfg, i64::MIN), Ok(()));
    let b = root.add(&mut cfg, "max64", LibType::TypeInt64).unwrap();
    assert_eq!(b.set_i64(&mut cfg, i64::MAX), Ok(()));
    let c = root.add(&mut cfg, "min32", LibType::TypeInt).unwrap();
    assert_eq!(c.set_i32(&mut cfg, i32::MIN), Ok(()));
    let out = cfg.write_str();
    let mut cfg2 = Config::new();
    assert_eq!(cfg2.read_str(&out), Ok(()));
    assert_eq!(cfg2.lookup_i64("min64"), Some(i64::MIN));
    assert_eq!(cfg2.lookup_i64("max64"), Some(i64::MAX));
    assert_eq!(cfg2.lookup_i32("min32"), Some(i32::MIN));
}

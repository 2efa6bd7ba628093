use libconfig::Config;
use libconfig::LibType;
use libconfig::libconfig_path;
use libconfig::text::include_target;

fn sample() -> Config {
    let mut cfg = Config::new();
    let text = "val_int = 42;\nval_u64 = 1099511627775L;\nsome_f32 = 0.48;\nsome_f64 = 1e10;\nname = \"Some Name\";\nouter = { inner = 3; };\narr = [3, 5, 8];\n";
    assert_eq!(cfg.read_str(text), Ok(()));
    cfg
}

#[test]
fn ok_on_valid_file() {
    let mut cfg = Config::new();
    let text = "val_int = 42;\nouter = { inner = 3; };\n";
    assert_eq!(cfg.read_str(text), Ok(()));
}

#[test]
fn error_on_invalid_file() {
    let mut cfg = Config::new();
    assert!(cfg.read_str("val_int = ;").is_err());
    assert!(cfg.read_str("][").is_err());
    assert!(cfg.read_str("a = { b = 1; ").is_err());
}

#[test]
fn ok_on_valid_i32_setting() {
    let cfg = sample();
    assert_eq!(cfg.lookup_i32("val_int"), Some(42));
}

#[test]
fn ok_on_nested_valid_i32_setting() {
    let cfg = sample();
    assert_eq!(cfg.lookup_i32("outer.inner"), Some(3));
}

#[test]
fn ok_on_valid_i64_setting() {
    let cfg = sample();
    assert_eq!(cfg.lookup_i64("val_u64"), Some(0xFFFFFFFFFF));
}

#[test]
fn ok_on_nested_valid_f32_setting() {
    let cfg = sample();
    let t = cfg.lookup_float_text("some_f32").unwrap();
    let x: f32 = t.parse().unwrap();
    assert_eq!(x, 0.48);
}

#[test]
fn ok_on_nested_valid_f64_setting() {
    let cfg = sample();
    let t = cfg.lookup_float_text("some_f64").unwrap();
    let x: f64 = t.parse().unwrap();
    assert_eq!(x, 1e10);
}

#[test]
fn ok_on_valid_string_setting() {
    let cfg = sample();
    assert_eq!(cfg.lookup_string("name"), Some(String::from("Some Name")));
}

#[test]
fn ok_on_setting_exists_from_config() {
    let cfg = sample();
    assert!(cfg.path_exists("outer"));
}

#[test]
fn ok_on_lookup_setting() {
    let cfg = sample();
    assert!(cfg.get_root().lookup(&cfg, "outer").is_ok());
}

#[test]
fn ok_on_setting_exists_from_setting() {
    let cfg = sample();
    assert!(cfg.get_root().path_exists(&cfg, "outer"));
}

#[test]
fn ok_on_underlying_setting_exists_from_setting() {
    let cfg = sample();
    let outer = cfg.get_root().lookup(&cfg, "outer").unwrap();
    assert!(outer.path_exists(&cfg, "inner"));
}

#[test]
fn ok_on_setting_name() {
    let cfg = sample();
    let outer = cfg.get_root().lookup(&cfg, "outer").unwrap();
    assert_eq!(outer.get_name(&cfg), Some(String::from("outer")));
}

#[test]
fn err_on_setting_without_name() {
    let cfg = sample();
    assert!(cfg.get_root().get_name(&cfg).is_none());
}

#[test]
fn ok_on_setting_path() {
    let cfg = sample();
    let inner = cfg.lookup("outer.inner").unwrap();
    assert_eq!(inner.get_path(&cfg), String::from("outer.inner"));
}

#[test]
fn ok_on_setting_get_parent() {
    let cfg = sample();
    let inner = cfg.lookup("outer.inner").unwrap();
    let parent = inner.get_parent(&cfg).unwrap();
    assert_eq!(parent.get_name(&cfg), Some(String::from("outer")));
}

#[test]
fn ok_on_setting_is_root() {
    let cfg = sample();
    assert!(cfg.get_root().is_root(&cfg));
}

#[test]
fn err_on_setting_is_not_root() {
    let cfg = sample();
    let inner = cfg.lookup("outer.inner").unwrap();
    assert!(!inner.is_root(&cfg));
}

#[test]
fn ok_on_setting_get_type_int() {
    let cfg = sample();
    let inner = cfg.lookup("outer.inner").unwrap();
    assert_eq!(inner.get_type(&cfg), LibType::TypeInt);
}

#[test]
fn ok_on_setting_get_type_x() {
    let cfg = sample();
    let outer = cfg.lookup("outer").unwrap();
    assert_eq!(outer.get_type(&cfg), LibType::TypeGroup);
}

#[test]
fn none_for_non_aggregate() {
    let cfg = sample();
    let v = cfg.lookup("val_int").unwrap();
    assert_eq!(v.get_type(&cfg), LibType::TypeInt);
    let mut it = v.into_iter(&cfg);
    assert!(it.next(&cfg).is_none());
}

#[test]
fn some_for_aggregate() {
    let cfg = sample();
    let arr = cfg.lookup("arr").unwrap();
    assert_eq!(arr.get_type(&cfg), LibType::TypeArray);
    let mut it = arr.into_iter(&cfg);
    assert_eq!(it.next(&cfg).unwrap().try_i32(&cfg), Ok(3));
}

#[test]
fn iter_returns_none_after_last_item() {
    let cfg = sample();
    let arr = cfg.lookup("arr").unwrap();
    assert_eq!(arr.get_type(&cfg), LibType::TypeArray);
    let mut it = arr.into_iter(&cfg);
    assert_eq!(it.next(&cfg).unwrap().try_i32(&cfg), Ok(3));
    assert_eq!(it.next(&cfg).unwrap().try_i32(&cfg), Ok(5));
    assert_eq!(it.next(&cfg).unwrap().try_i32(&cfg), Ok(8));
    assert!(it.next(&cfg).is_none());
}

#[test]
fn lookup_mismatched_kind_is_none() {
    let cfg = sample();
    assert_eq!(cfg.lookup_i32("name"), None);
    assert_eq!(cfg.lookup_bool("val_int"), None);
    assert_eq!(cfg.lookup_string("outer"), None);
    assert_eq!(cfg.lookup_i64("missing"), None);
}

#[test]
fn empty_path_resolves_to_start() {
    let cfg = sample();
    let outer = cfg.lookup("outer").unwrap();
    let same = outer.lookup(&cfg, "").unwrap();
    assert_eq!(same.get_path(&cfg), String::from("outer"));
    let dot = outer.lookup(&cfg, ".").unwrap();
    assert_eq!(dot.get_path(&cfg), String::from("outer"));
}

#[test]
fn positional_path_segments() {
    let cfg = sample();
    assert_eq!(cfg.lookup_i32("arr.0"), Some(3));
    assert_eq!(cfg.lookup_i32("arr.2"), Some(8));
    assert_eq!(cfg.lookup_i32("arr.3"), None);
    let e = cfg.lookup("arr.1").unwrap();
    assert_eq!(e.get_path(&cfg), String::from("arr.1"));
    assert_eq!(e.get_index(&cfg), Some(1));
}

#[test]
fn bool_and_list_values() {
    let mut cfg = Config::new();
    let text = "flag = true;\noff = false;\nl = ( 1, \"x\", true );\n";
    assert_eq!(cfg.read_str(text), Ok(()));
    assert_eq!(cfg.lookup_bool("flag"), Some(true));
    assert_eq!(cfg.lookup_bool("off"), Some(false));
    let l = cfg.lookup("l").unwrap();
    assert_eq!(l.get_type(&cfg), LibType::TypeList);
    assert_eq!(l.get_length(&cfg), Ok(3));
    assert_eq!(cfg.lookup_string("l.1"), Some(String::from("x")));
}

#[test]
fn hex_and_negative_integers() {
    let mut cfg = Config::new();
    let text = "h = 0x1A;\nneg = -7;\nbig = 0x1FFFFFFFFL;\n";
    assert_eq!(cfg.read_str(text), Ok(()));
    assert_eq!(cfg.lookup_i32("h"), Some(26));
    let h = cfg.lookup("h").unwrap();
    assert_eq!(h.get_format(&cfg), Some(libconfig::Format::FormatHex));
    assert_eq!(cfg.lookup_i32("neg"), Some(-7));
    assert_eq!(cfg.lookup_i64("big"), Some(0x1FFFFFFFF));
}

#[test]
fn comments_are_skipped() {
    let mut cfg = Config::new();
    let text = "# leading comment\nval = 1; # trailing comment\nother = 2;\n";
    assert_eq!(cfg.read_str(text), Ok(()));
    assert_eq!(cfg.lookup_i32("val"), Some(1));
    assert_eq!(cfg.lookup_i32("other"), Some(2));
}

#[test]
fn duplicate_names_are_rejected() {
    let mut cfg = Config::new();
    assert!(cfg.read_str("a = 1;\na = 2;\n").is_err());
    assert!(cfg.read_str("g = { x = 1; x = 2; };").is_err());
}

#[test]
fn mixed_arrays_are_rejected() {
    let mut cfg = Config::new();
    assert!(cfg.read_str("a = [1, \"x\"];").is_err());
    assert!(cfg.read_str("a = [1, 2];").is_ok());
}

#[test]
fn default_include_base_is_current_dir() {
    assert_eq!(libconfig_path(), ".");
}

#[test]
fn kind_predicates() {
    let cfg = sample();
    let root = cfg.get_root();
    assert!(root.is_group(&cfg));
    assert!(root.is_aggregate(&cfg));
    assert!(!root.is_scalar(&cfg));
    assert_eq!(root.get_path(&cfg), String::from(""));
    assert_eq!(root.get_index(&cfg), None);
    let v = cfg.lookup("val_int").unwrap();
    assert!(v.is_scalar(&cfg) && v.is_number(&cfg));
    assert!(!v.is_aggregate(&cfg) && !v.is_string(&cfg));
    let s = cfg.lookup("name").unwrap();
    assert!(s.is_string(&cfg) && !s.is_number(&cfg));
    let arr = cfg.lookup("arr").unwrap();
    assert!(arr.is_array(&cfg) && !arr.is_list(&cfg) && !arr.is_group(&cfg));
    let inner = cfg.lookup("outer.inner").unwrap();
    assert_eq!(inner.get_index(&cfg), Some(0));
}

#[test]
fn colon_separator_is_accepted() {
    let mut cfg = Config::new();
    assert_eq!(cfg.read_str("val : 7;\ngrp : { x : 1; };"), Ok(()));
    assert_eq!(cfg.lookup_i32("val"), Some(7));
    assert_eq!(cfg.lookup_i32("grp.x"), Some(1));
}

#[test]
fn string_escapes_are_decoded() {
    let mut cfg = Config::new();
    assert_eq!(
        cfg.read_str("s = \"a\\tb\\n\\\"q\\\" c\\\\d\";"),
        Ok(())
    );
    assert_eq!(
        cfg.lookup_string("s"),
        Some(String::from("a\tb\n\"q\" c\\d"))
    );
}

#[test]
fn include_directive_lines_are_recognised() {
    assert_eq!(
        include_target("@include \"sub.cfg\""),
        Some(String::from("sub.cfg"))
    );
    assert_eq!(
        include_target("  @include \"dir/sub.cfg\"  "),
        Some(String::from("dir/sub.cfg"))
    );
    assert_eq!(include_target("val = 1;"), None);
    assert_eq!(include_target("@include sub.cfg"), None);
    assert_eq!(include_target("@include \"unterminated"), None);
}

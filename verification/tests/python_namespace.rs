use probing_rl::python::{
    backtrace_columns, import_path_parts, import_prefixes, list_table, CallFrame, PythonNamespace, PythonTable,
};

#[test]
fn test_python_namespace_default() {
    let ns = PythonNamespace::default();
    assert_eq!(format!("{:?}", ns), "PythonNamespace");
}

#[test]
fn test_import_path_parsing() {
    let parts = import_path_parts("sys.path");
    assert_eq!(parts, vec!["sys", "path"]);

    let parts2 = import_path_parts("sys.path.append('test')");
    assert_eq!(parts2, vec!["sys", "path", "append"]);

    let parts3 = import_path_parts("");
    assert!(parts3.is_empty());
}

#[test]
fn import_path_stops_at_index_and_skips_empty_segments() {
    assert_eq!(import_path_parts("os.environ['HOME']"), vec!["os", "environ"]);
    assert_eq!(import_path_parts("..a..b."), vec!["a", "b"]);
    assert_eq!(import_path_parts("(x.y)"), Vec::<String>::new());
}

#[test]
fn namespace_name_and_tables() {
    assert_eq!(PythonNamespace::name(), "python");
    assert_eq!(PythonNamespace::list(), vec!["backtrace".to_string()]);
    assert_eq!(PythonNamespace::table("backtrace"), PythonTable::Backtrace);
    assert_eq!(PythonNamespace::table("sys.modules"), PythonTable::Expression);
    assert_eq!(PythonNamespace::table("f()"), PythonTable::Expression);
    assert_eq!(PythonNamespace::table("a[0]"), PythonTable::Expression);
    assert_eq!(PythonNamespace::table("trace_event"), PythonTable::NotServed);
}

#[test]
fn import_prefixes_join_longer_paths() {
    let parts = vec!["a".to_string(), "b".to_string(), "c".to_string()];
    assert_eq!(import_prefixes(&parts), vec!["a.b", "a.b.c"]);
    assert!(import_prefixes(&vec!["sys".to_string()]).is_empty());
    assert!(import_prefixes(&Vec::new()).is_empty());
}

#[test]
fn backtrace_columns_number_frames_by_depth() {
    assert!(backtrace_columns(&Vec::new()).is_none());
    let frames = vec![
        CallFrame::CFrame { ip: "0x1".to_string(), file: "a.c".to_string(), func: "main".to_string(), lineno: 3 },
        CallFrame::PyFrame { file: "b.py".to_string(), func: "run".to_string(), lineno: 7 },
    ];
    let c = backtrace_columns(&frames).unwrap();
    assert_eq!(c.ips, vec![Some("0x1".to_string()), None]);
    assert_eq!(c.files, vec!["a.c", "b.py"]);
    assert_eq!(c.funcs, vec!["main", "run"]);
    assert_eq!(c.linenos, vec![3, 7]);
    assert_eq!(c.depths, vec![0, 1]);
    assert_eq!(c.frame_types, vec!["Native", "Python"]);
}

#[test]
fn list_table_unions_keys_in_order() {
    let items = vec![
        vec![("a".to_string(), "1".to_string())],
        vec![("b".to_string(), "2".to_string()), ("a".to_string(), "3".to_string())],
        vec![],
    ];
    let t = list_table(&items);
    assert_eq!(t.names, vec!["a", "b"]);
    assert_eq!(t.columns[0], vec![Some("1".to_string()), Some("3".to_string()), None]);
    assert_eq!(t.columns[1], vec![None, Some("2".to_string()), None]);
}

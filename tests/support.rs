use unscrambler::cli::logging::{
    deps_log_level_from_num, log_filter, log_level_from_num, self_log_level_from_num, LogLevel,
};
use unscrambler::cli::{Dialect, InputFs, InputType, OutputFmt};
use unscrambler::deps::offline::{DirListing, OfflineDependencySearch};
use unscrambler::deps::resolver::DependencyResolverMap;
use unscrambler::deps::{DependencySearch, DependencySource};
use unscrambler::net::{data_url, loaded_bytes, LoadError, NetCfg};

fn s(x: &str) -> String {
    x.to_string()
}

#[test]
fn net_cfg_keeps_base_url() {
    let cfg = NetCfg::new(s("http://node:8080/"));
    assert_eq!(cfg.node_base_url(), "http://node:8080/");
}

#[test]
fn data_url_is_hex_encoded() {
    let cfg = NetCfg::new(s("http://node/"));
    assert_eq!(data_url(&cfg, &[0x00, 0xAB], &[0x01, 0xFF, 0x10]), "http://node/vm/data/00ab/01ff10");
}

#[test]
fn loaded_bytes_decodes_hex() {
    assert_eq!(loaded_bytes(b"a11ceb0b"), Ok(vec![0xA1, 0x1C, 0xEB, 0x0B]));
    assert_eq!(loaded_bytes(b"A11CEB0B"), Ok(vec![0xA1, 0x1C, 0xEB, 0x0B]));
    assert_eq!(loaded_bytes(b""), Err(LoadError::NotFound));
    assert_eq!(loaded_bytes(b"abc"), Err(LoadError::InvalidHex));
    assert_eq!(loaded_bytes(b"zz"), Err(LoadError::InvalidHex));
}

#[test]
fn output_format_names() {
    assert_eq!(OutputFmt::parse("md"), Ok(OutputFmt::Markdown));
    assert_eq!(OutputFmt::parse("HTML"), Ok(OutputFmt::Html));
    assert_eq!("Json".parse::<OutputFmt>(), Ok(OutputFmt::Json));
    assert_eq!(OutputFmt::parse("yaml"), Err(s("Unsupported output format 'yaml'")));
}

#[test]
fn input_type_names() {
    assert_eq!(InputType::parse("Auto"), Ok(InputType::Auto));
    assert_eq!(InputType::parse("script"), Ok(InputType::Script));
    assert_eq!(InputType::parse("MODULE"), Ok(InputType::Module));
    assert_eq!(InputType::parse("lib"), Err(s("Unsupported input type 'lib'")));
}

#[test]
fn dialect_names() {
    assert_eq!(Dialect::parse("DFI"), Ok(Dialect::Dfinance));
    assert_eq!(Dialect::parse("libra"), Ok(Dialect::Libra));
    assert_eq!(Dialect::parse("move"), Err(s("Unsupported output format 'move'")));
}

#[test]
fn log_levels_by_verbosity() {
    assert_eq!(self_log_level_from_num(0), LogLevel::Info);
    assert_eq!(self_log_level_from_num(1), LogLevel::Debug);
    assert_eq!(self_log_level_from_num(2), LogLevel::Trace);
    assert_eq!(self_log_level_from_num(9), LogLevel::Trace);
    assert_eq!(deps_log_level_from_num(2), LogLevel::Info);
    assert_eq!(deps_log_level_from_num(3), LogLevel::Debug);
    assert_eq!(deps_log_level_from_num(4), LogLevel::Trace);
}

#[test]
fn log_filter_text() {
    assert_eq!(log_filter(1, "move-unscrambler", "move_unscrambler", ""), "INFO,move-unscrambler=DEBUG,move_unscrambler=DEBUG,");
    assert_eq!(log_level_from_num(3, "a-b", "x=warn"), "DEBUG,a-b=TRACE,a_b=TRACE,x=warn");
}

fn input_fs(deps: &[&str], recursive: bool) -> InputFs {
    InputFs {
        path: s("/in/main.mv"),
        kind: InputType::Auto,
        dependencies: deps.iter().map(|d| s(d)).collect(),
        search_recursive: recursive,
        follow_symlinks: false,
    }
}

#[test]
fn offline_search_collects_module_files() {
    let opts = input_fs(&["/lib/one.mv", "/deps"], false);
    let listings = vec![
        vec![DirListing { dir: s("/lib/one.mv"), files: vec![] }],
        vec![DirListing {
            dir: s("/deps"),
            files: vec![s("/deps/b.mv"), s("/deps/notes.txt"), s("/deps/a.mv"), s("/in/main.mv"), s("/deps/a.mv")],
        }],
    ];
    let search = OfflineDependencySearch::new_from_opts(&opts, listings);
    assert_eq!(search.all_files(), vec![s("/lib/one.mv"), s("/deps/a.mv"), s("/deps/b.mv")]);
    assert!(search.has_file(&s("/deps/b.mv")));
    assert!(!search.has_file(&s("/in/main.mv")));
    assert!(!search.has_file(&s("/deps/notes.txt")));
    assert_eq!(search.into_all_files().len(), 3);
}

#[test]
fn offline_search_recursive_subdirs() {
    let mut search = OfflineDependencySearch::new(true, false);
    search.add_search_dir(
        s("/deps"),
        vec![s("/deps/z.mv")],
        vec![
            DirListing { dir: s("/deps"), files: vec![s("/deps/z.mv")] },
            DirListing { dir: s("/deps/sub"), files: vec![s("/deps/sub/y.mv"), s("/deps/z.mv")] },
        ],
    );
    assert_eq!(search.all_files(), vec![s("/deps/z.mv"), s("/deps/sub/y.mv")]);
}

#[test]
fn offline_search_file_left_out() {
    let opts = input_fs(&["/in/main.mv", "/lib/two.mv"], false);
    let listings = vec![
        vec![DirListing { dir: s("/in/main.mv"), files: vec![] }],
        vec![DirListing { dir: s("/lib/two.mv"), files: vec![] }],
    ];
    let mut search = OfflineDependencySearch::new_from_opts(&opts, listings);
    assert_eq!(search.all_files(), vec![s("/lib/two.mv")]);
    search.add_search_file(s("/lib/three.mv"));
    assert_eq!(search.all_files(), vec![s("/lib/two.mv"), s("/lib/three.mv")]);
}

struct Fixed(Result<Vec<u8>, String>);

impl DependencySearch<u32> for Fixed {
    fn search(&self, _query: u32) -> Result<(DependencySource, Vec<u8>), String> {
        self.0.clone().map(|b| (DependencySource::Net, b))
    }
}

#[test]
fn resolver_asks_searchers_in_turn() {
    let mut r: DependencyResolverMap<u32, Vec<u8>, Fixed> = DependencyResolverMap::new(vec![7]);
    assert!(r.search(&1).is_none());
    r.add_searcher(Fixed(Err(s("offline"))));
    r.add_searcher(Fixed(Ok(vec![1, 2])));
    let found = r.search(&2).unwrap();
    assert_eq!(found.1, vec![1, 2]);
    let (storage, unresolved) = r.split();
    assert_eq!(storage, vec![7]);
    assert!(unresolved.is_empty());
}

#[test]
fn resolver_keeps_unresolved_with_last_error() {
    let mut r: DependencyResolverMap<u32, (), Fixed> = DependencyResolverMap::new(());
    r.add_searcher(Fixed(Err(s("first"))));
    r.add_searcher(Fixed(Err(s("second"))));
    assert!(r.search(&5).is_none());
    assert!(r.search(&6).is_none());
    // asking again replaces the error kept for the query
    assert!(r.search(&5).is_none());
    let (_, unresolved) = r.split();
    assert_eq!(unresolved.len(), 2);
    assert_eq!(unresolved.get(&5), Some(&s("second")));
    assert_eq!(unresolved.get(&6), Some(&s("second")));
}

#[test]
fn offline_search_compares_paths_by_components() {
    let mut search = OfflineDependencySearch::new(false, false);
    search.add_search_file(s("a/b.mv"));
    assert!(search.has_file(&s("a/b.mv/")));
    assert!(search.has_file(&s("a//b.mv")));
    assert!(!search.has_file(&s("a/c.mv")));

    let opts = input_fs(&["/in//main.mv"], false);
    let search = OfflineDependencySearch::new_from_opts(&opts, vec![vec![DirListing { dir: s("/in//main.mv"), files: vec![] }]]);
    assert!(search.all_files().is_empty());
}

#[test]
fn offline_search_sorts_and_dedups_as_paths() {
    let mut search = OfflineDependencySearch::new(false, false);
    search.add_search_dir(
        s("/d"),
        vec![s("/d/a-b.mv"), s("/d/a/b.mv"), s("/d/x.mv"), s("/d//x.mv")],
        vec![],
    );
    assert_eq!(search.all_files(), vec![s("/d/a/b.mv"), s("/d/a-b.mv"), s("/d/x.mv")]);
}

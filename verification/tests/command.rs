use dotgirl::codec::Lossless;
use dotgirl::command::{keep_movable, link_and_record, stash};
use dotgirl::store::{load_bundle, save_bundle};
use dotgirl::{
    cmd_add, cmd_link, get_lockfile, get_storage_dir, write_lockfile, Bundle, Codec, Entry, Env,
    Error, Filesystem, Lock, MemoryFilesystem, Reply, ScriptedPrompt,
};
use toml::value::Table;
use toml::Value;

/// Bundles and locks as TOML text.
struct TomlCodec;

fn entry_value(entry: &Entry) -> Value {
    let mut table = Table::new();
    table.insert("local".to_owned(), Value::String(entry.local.clone()));
    table.insert("remote".to_owned(), Value::String(entry.remote.clone()));
    Value::Table(table)
}

fn bundle_value(bundle: &Bundle) -> Value {
    let mut table = Table::new();
    table.insert("id".to_owned(), Value::String(bundle.id.clone()));
    table.insert(
        "entries".to_owned(),
        Value::Array(bundle.entries.iter().map(entry_value).collect()),
    );
    Value::Table(table)
}

fn lock_value(lock: &Lock) -> Value {
    let mut table = Table::new();
    table.insert(
        "bundles".to_owned(),
        Value::Array(lock.bundles.iter().map(bundle_value).collect()),
    );
    Value::Table(table)
}

fn text_in(value: &Value, key: &str) -> Option<String> {
    Some(value.get(key)?.as_str()?.to_owned())
}

fn entry_from(value: &Value) -> Option<Entry> {
    Some(Entry { local: text_in(value, "local")?, remote: text_in(value, "remote")? })
}

fn bundle_from(value: &Value) -> Option<Bundle> {
    let mut entries = Vec::new();
    for item in value.get("entries")?.as_array()? {
        entries.push(entry_from(item)?);
    }
    Some(Bundle { id: text_in(value, "id")?, entries })
}

fn lock_from(value: &Value) -> Option<Lock> {
    let mut bundles = Vec::new();
    for item in value.get("bundles")?.as_array()? {
        bundles.push(bundle_from(item)?);
    }
    Some(Lock { bundles })
}

impl Codec for TomlCodec {
    fn encode_bundle(&self, bundle: &Bundle) -> Option<String> {
        toml::to_string(&bundle_value(bundle)).ok()
    }

    fn decode_bundle(&self, text: &str) -> Option<Bundle> {
        bundle_from(&toml::from_str::<Value>(text).ok()?)
    }

    fn encode_lock(&self, lock: &Lock) -> Option<String> {
        toml::to_string(&lock_value(lock)).ok()
    }

    fn decode_lock(&self, text: &str) -> Option<Lock> {
        lock_from(&toml::from_str::<Value>(text).ok()?)
    }
}

/// A codec that forgets the entries of what it encodes.
struct Forgetful;

impl Codec for Forgetful {
    fn encode_bundle(&self, bundle: &Bundle) -> Option<String> {
        TomlCodec.encode_bundle(&Bundle { id: bundle.id.clone(), entries: vec![] })
    }

    fn decode_bundle(&self, text: &str) -> Option<Bundle> {
        TomlCodec.decode_bundle(text)
    }

    fn encode_lock(&self, _: &Lock) -> Option<String> {
        TomlCodec.encode_lock(&Lock::default())
    }

    fn decode_lock(&self, text: &str) -> Option<Lock> {
        TomlCodec.decode_lock(text)
    }
}

/// A codec that can decode and cannot encode.
struct Mute;

impl Codec for Mute {
    fn encode_bundle(&self, _: &Bundle) -> Option<String> {
        None
    }

    fn decode_bundle(&self, text: &str) -> Option<Bundle> {
        TomlCodec.decode_bundle(text)
    }

    fn encode_lock(&self, _: &Lock) -> Option<String> {
        None
    }

    fn decode_lock(&self, text: &str) -> Option<Lock> {
        TomlCodec.decode_lock(text)
    }
}

// A storage directory and a folder with files:
// /dotgirl (storage dir)
// /config
//     config
//     .hidden-config
//     /a
//         /sub
//             config
//         config
//         .hidden-config
//     /b
//         config
fn setup() -> (MemoryFilesystem, Env, String) {
    let mut fs = MemoryFilesystem::new();
    let storage = "/dotgirl".to_owned();
    fs.mkdir_all(&storage).unwrap();

    let conf = "/config".to_owned();
    fs.mkdir_all("/config/a/sub").unwrap();

    fs.put("/config/config", "hello config").unwrap();
    fs.put("/config/.hidden-config", "hello config").unwrap();

    fs.put("/config/a/config", "hello config").unwrap();
    fs.put("/config/a/.hidden-config", "hello config").unwrap();
    fs.put("/config/a/sub/config", "hello config").unwrap();

    fs.mkdir_all("/config/b").unwrap();
    fs.put("/config/b/config", "hello config").unwrap();

    (fs, Env { storage }, conf)
}

fn home() -> (MemoryFilesystem, Env) {
    let mut fs = MemoryFilesystem::new();
    fs.mkdir_all("/home/u/.config/nvim").unwrap();
    fs.put("/home/u/.bashrc", "X").unwrap();
    fs.put("/home/u/.config/nvim/init.lua", "-- init").unwrap();
    (fs, Env::in_home(Some("/home/u")).unwrap())
}

fn shell_paths() -> Vec<String> {
    vec!["/home/u/.bashrc".to_owned(), "/home/u/.config/nvim".to_owned()]
}

fn silent() -> ScriptedPrompt {
    ScriptedPrompt::new(vec![])
}

#[test]
fn cmd_add_should_work_for_new_bundle() {
    let (mut fs, env, config_dir) = setup();

    let paths = vec![format!("{}/a", config_dir), format!("{}/b", config_dir)];

    cmd_add(&mut fs, &mut silent(), &TomlCodec, &env, "test_bundle", &paths)
        .expect("Add should have worked");

    assert!(fs.is_symlink(&format!("{}/a", config_dir)));
    assert!(fs.is_symlink(&format!("{}/b", config_dir)));

    let bundle_dir = format!("{}/{}", env.storage, "bundle/test_bundle");

    assert!(fs.is_dir(&format!("{}/a", bundle_dir)));
    assert!(fs.is_dir(&format!("{}/a/sub", bundle_dir)));
    assert!(fs.is_dir(&format!("{}/b", bundle_dir)));

    assert!(fs.is_file(&format!("{}/a/config", bundle_dir)));
    assert!(fs.is_file(&format!("{}/a/sub/config", bundle_dir)));
    assert!(fs.is_file(&format!("{}/a/.hidden-config", bundle_dir)));
}

#[test]
fn cmd_add_should_trim_dot_prefix() {
    let (mut fs, env, config_dir) = setup();
    let paths = vec![format!("{}/.hidden-config", config_dir)];

    cmd_add(&mut fs, &mut silent(), &TomlCodec, &env, "test_bundle", &paths)
        .expect("Add should have worked");

    assert!(fs.is_symlink(&format!("{}/.hidden-config", config_dir)));
    assert!(fs.is_file(&format!("{}/{}", env.storage, "bundle/test_bundle/hidden-config")));
}

#[test]
fn add_moves_the_paths_and_links_them() {
    let (mut fs, env) = home();
    let mut prompt = silent();
    assert_eq!(cmd_add(&mut fs, &mut prompt, &TomlCodec, &env, "shell", &shell_paths()), Ok(()));

    assert_eq!(
        fs.link_target("/home/u/.bashrc"),
        Some("/home/u/dotgirl/bundle/shell/bashrc".to_owned())
    );
    assert_eq!(fs.get("/home/u/dotgirl/bundle/shell/bashrc"), Ok("X".to_owned()));
    assert_eq!(
        fs.link_target("/home/u/.config/nvim"),
        Some("/home/u/dotgirl/bundle/shell/nvim".to_owned())
    );
    assert!(fs.is_dir("/home/u/dotgirl/bundle/shell/nvim"));
    assert_eq!(fs.get("/home/u/dotgirl/bundle/shell/nvim/init.lua"), Ok("-- init".to_owned()));
    assert!(!fs.is_file("/home/u/.config/nvim/init.lua"));
    assert_eq!(prompt.questions().len(), 0);

    let lock = get_lockfile(&fs, &TomlCodec, &env).unwrap();
    assert_eq!(lock.bundles.len(), 1);
    assert_eq!(lock.bundles[0].id, "shell");
    assert_eq!(lock.bundles[0].entries.len(), 2);
    assert_eq!(lock.bundles[0].entries[0].local, "/home/u/dotgirl/bundle/shell/bashrc");
    assert_eq!(lock.bundles[0].entries[0].remote, "/home/u/.bashrc");
    assert_eq!(lock.bundles[0].entries[1].local, "/home/u/dotgirl/bundle/shell/nvim");
    assert_eq!(lock.bundles[0].entries[1].remote, "/home/u/.config/nvim");

    let bundle = load_bundle(&fs, &TomlCodec, &env, "shell").unwrap();
    assert_eq!(bundle.id, "shell");
    assert_eq!(bundle.entries.len(), 2);
    assert_eq!(bundle.entries[1].remote, "/home/u/.config/nvim");
}

#[test]
fn add_writes_the_records_as_toml() {
    let (mut fs, env) = home();
    cmd_add(&mut fs, &mut silent(), &TomlCodec, &env, "shell", &vec!["/home/u/.bashrc".to_owned()])
        .unwrap();
    assert_eq!(
        fs.get("/home/u/dotgirl/bundle/shell/bundle.toml"),
        Ok("id = \"shell\"\n\
            \n\
            [[entries]]\n\
            local = \"/home/u/dotgirl/bundle/shell/bashrc\"\n\
            remote = \"/home/u/.bashrc\"\n"
            .to_owned())
    );
    assert_eq!(
        fs.get("/home/u/dotgirl/lock.toml"),
        Ok("[[bundles]]\n\
            id = \"shell\"\n\
            \n\
            [[bundles.entries]]\n\
            local = \"/home/u/dotgirl/bundle/shell/bashrc\"\n\
            remote = \"/home/u/.bashrc\"\n"
            .to_owned())
    );
}

#[test]
fn linking_again_does_not_ask() {
    let (mut fs, env) = home();
    cmd_add(&mut fs, &mut silent(), &TomlCodec, &env, "shell", &shell_paths()).unwrap();

    let mut prompt = silent();
    assert_eq!(cmd_link(&mut fs, &mut prompt, &TomlCodec, &env, "shell"), Ok(()));
    assert_eq!(prompt.questions().len(), 0);
    assert_eq!(
        fs.link_target("/home/u/.bashrc"),
        Some("/home/u/dotgirl/bundle/shell/bashrc".to_owned())
    );
    assert_eq!(
        fs.link_target("/home/u/.config/nvim"),
        Some("/home/u/dotgirl/bundle/shell/nvim".to_owned())
    );
    let lock = get_lockfile(&fs, &TomlCodec, &env).unwrap();
    assert_eq!(lock.bundles.len(), 1);
    assert_eq!(lock.bundles[0].entries.len(), 2);
}

#[test]
fn link_restores_a_missing_symlink_without_asking() {
    let (mut fs, env) = home();
    cmd_add(&mut fs, &mut silent(), &TomlCodec, &env, "shell", &shell_paths()).unwrap();
    fs.remove("/home/u/.bashrc").unwrap();

    let mut prompt = silent();
    assert_eq!(cmd_link(&mut fs, &mut prompt, &TomlCodec, &env, "shell"), Ok(()));
    assert_eq!(prompt.questions().len(), 0);
    assert!(fs.is_symlink("/home/u/.bashrc"));
}

#[test]
fn skip_is_not_sticky() {
    let (mut fs, env) = home();
    cmd_add(&mut fs, &mut silent(), &TomlCodec, &env, "shell", &shell_paths()).unwrap();
    // the lock is lost, and a file of the user's own is in the place of one link
    fs.remove("/home/u/dotgirl/lock.toml").unwrap();
    fs.put("/home/u/.bashrc", "mine").unwrap();

    let mut first = ScriptedPrompt::new(vec![Reply::Select(0), Reply::Select(1)]);
    assert_eq!(cmd_link(&mut fs, &mut first, &TomlCodec, &env, "shell"), Ok(()));
    assert_eq!(first.questions().len(), 2);
    assert_eq!(fs.get("/home/u/.bashrc"), Ok("mine".to_owned()));
    let lock = get_lockfile(&fs, &TomlCodec, &env).unwrap();
    assert_eq!(lock.bundles.len(), 1);
    assert_eq!(lock.bundles[0].entries.len(), 1);
    assert_eq!(lock.bundles[0].entries[0].remote, "/home/u/.config/nvim");

    // the skipped entry is asked about again, the linked one is not
    let mut second = ScriptedPrompt::new(vec![Reply::Select(1)]);
    assert_eq!(cmd_link(&mut fs, &mut second, &TomlCodec, &env, "shell"), Ok(()));
    assert_eq!(second.questions().len(), 1);
    assert_eq!(second.questions()[0].message, "/home/u/.bashrc already exists.");
    assert!(fs.is_symlink("/home/u/.bashrc"));
    let lock = get_lockfile(&fs, &TomlCodec, &env).unwrap();
    assert_eq!(lock.bundles[0].entries.len(), 2);
}

#[test]
fn symlinked_inputs_are_left_out() {
    let (mut fs, env) = home();
    fs.symlink("/somewhere/else", "/home/u/.profile").unwrap();
    let paths = vec![
        "/home/u/.profile".to_owned(),
        "/home/u/.bashrc".to_owned(),
    ];
    assert_eq!(cmd_add(&mut fs, &mut silent(), &TomlCodec, &env, "shell", &paths), Ok(()));
    assert_eq!(fs.link_target("/home/u/.profile"), Some("/somewhere/else".to_owned()));
    assert!(!fs.is_symlink("/home/u/dotgirl/bundle/shell/profile"));
    let bundle = load_bundle(&fs, &TomlCodec, &env, "shell").unwrap();
    assert_eq!(bundle.entries.len(), 1);
    assert_eq!(bundle.entries[0].remote, "/home/u/.bashrc");
    let lock = get_lockfile(&fs, &TomlCodec, &env).unwrap();
    assert_eq!(lock.bundles[0].entries.len(), 1);
    assert_eq!(lock.bundles[0].entries[0].remote, "/home/u/.bashrc");
}

#[test]
fn keep_movable_drops_symlinks_only() {
    let (mut fs, _) = home();
    fs.symlink("/somewhere/else", "/home/u/.profile").unwrap();
    let paths = vec![
        "/home/u/.bashrc".to_owned(),
        "/home/u/.profile".to_owned(),
        "/home/u/missing".to_owned(),
        "/home/u/.config".to_owned(),
    ];
    assert_eq!(
        keep_movable(&fs, &paths),
        vec![
            "/home/u/.bashrc".to_owned(),
            "/home/u/missing".to_owned(),
            "/home/u/.config".to_owned()
        ]
    );
}

#[test]
fn stash_moves_each_path_under_its_name() {
    let (mut fs, env) = home();
    let bundle = stash(&mut fs, &env, "shell", &shell_paths()).unwrap();
    assert_eq!(bundle.id, "shell");
    assert_eq!(bundle.entries.len(), 2);
    assert_eq!(bundle.entries[0].local, "/home/u/dotgirl/bundle/shell/bashrc");
    assert_eq!(bundle.entries[0].remote, "/home/u/.bashrc");
    assert!(fs.is_dir("/home/u/dotgirl/bundle/shell"));
    assert_eq!(fs.get("/home/u/dotgirl/bundle/shell/bashrc"), Ok("X".to_owned()));
    assert!(!fs.is_file("/home/u/.bashrc"));
    assert!(!fs.is_dir("/home/u/.config/nvim"));
    assert!(fs.is_dir("/home/u/.config"));
}

#[test]
fn add_fails_on_a_path_that_does_not_exist() {
    let (mut fs, env) = home();
    let paths = vec!["/home/u/.bashrc".to_owned(), "/home/u/missing".to_owned()];
    let r = cmd_add(&mut fs, &mut silent(), &TomlCodec, &env, "shell", &paths);
    assert_eq!(r, Err(Error::SourceNotFound));
    // what was moved before the failure stays moved
    assert_eq!(fs.get("/home/u/dotgirl/bundle/shell/bashrc"), Ok("X".to_owned()));
    assert!(!fs.is_file("/home/u/.bashrc"));
    assert!(!fs.is_file("/home/u/dotgirl/lock.toml"));
}

#[test]
fn add_fails_on_a_path_without_a_name() {
    let (mut fs, env) = home();
    let r = cmd_add(&mut fs, &mut silent(), &TomlCodec, &env, "shell", &vec!["/".to_owned()]);
    assert_eq!(r, Err(Error::PathComponentInvalid));
    assert_eq!(fs.get("/home/u/.bashrc"), Ok("X".to_owned()));
}

#[test]
fn add_fails_where_the_storage_is_blocked() {
    let (mut fs, env) = home();
    fs.put("/home/u/dotgirl", "a file").unwrap();
    let r = cmd_add(&mut fs, &mut silent(), &TomlCodec, &env, "shell", &shell_paths());
    assert_eq!(r, Err(Error::PathConflict));
    assert_eq!(fs.get("/home/u/.bashrc"), Ok("X".to_owned()));
}

#[test]
fn add_replaces_the_record_of_the_bundle() {
    let (mut fs, env) = home();
    cmd_add(&mut fs, &mut silent(), &TomlCodec, &env, "shell", &vec!["/home/u/.bashrc".to_owned()])
        .unwrap();
    cmd_add(&mut fs, &mut silent(), &TomlCodec, &env, "editor", &vec![]).unwrap();
    cmd_add(
        &mut fs,
        &mut silent(),
        &TomlCodec,
        &env,
        "shell",
        &vec!["/home/u/.config/nvim".to_owned()],
    )
    .unwrap();
    let lock = get_lockfile(&fs, &TomlCodec, &env).unwrap();
    assert_eq!(lock.bundles.len(), 2);
    assert_eq!(lock.bundles[0].id, "editor");
    assert!(lock.bundles[0].entries.is_empty());
    assert_eq!(lock.bundles[1].id, "shell");
    assert_eq!(lock.bundles[1].entries.len(), 1);
    assert_eq!(lock.bundles[1].entries[0].remote, "/home/u/.config/nvim");
    let bundle = load_bundle(&fs, &TomlCodec, &env, "shell").unwrap();
    assert_eq!(bundle.entries.len(), 1);
    assert_eq!(bundle.entries[0].remote, "/home/u/.config/nvim");
}

#[test]
fn add_fails_where_the_codec_cannot_encode() {
    let (mut fs, env) = home();
    let r = cmd_add(&mut fs, &mut silent(), &Mute, &env, "shell", &shell_paths());
    assert_eq!(r, Err(Error::SerializationFailure));
    assert!(!fs.is_file("/home/u/dotgirl/bundle/shell/bundle.toml"));
    assert!(!fs.is_symlink("/home/u/.bashrc"));
}

#[test]
fn link_fails_without_the_bundle() {
    let (mut fs, env) = home();
    let r = cmd_link(&mut fs, &mut silent(), &TomlCodec, &env, "shell");
    assert_eq!(r, Err(Error::BundleNotFound));
}

#[test]
fn link_fails_without_the_metadata() {
    let (mut fs, env) = home();
    fs.mkdir_all("/home/u/dotgirl/bundle/shell").unwrap();
    let r = cmd_link(&mut fs, &mut silent(), &TomlCodec, &env, "shell");
    assert_eq!(r, Err(Error::BundleMissingMetadata));
}

#[test]
fn link_fails_on_metadata_that_is_no_bundle() {
    let (mut fs, env) = home();
    fs.mkdir_all("/home/u/dotgirl/bundle/shell").unwrap();
    fs.put("/home/u/dotgirl/bundle/shell/bundle.toml", "id = 7").unwrap();
    let r = cmd_link(&mut fs, &mut silent(), &TomlCodec, &env, "shell");
    assert_eq!(r, Err(Error::SerializationFailure));
    fs.put("/home/u/dotgirl/bundle/shell/bundle.toml", "not toml at all [").unwrap();
    let r = cmd_link(&mut fs, &mut silent(), &TomlCodec, &env, "shell");
    assert_eq!(r, Err(Error::SerializationFailure));
}

#[test]
fn link_fails_on_a_lock_that_cannot_be_read() {
    let (mut fs, env) = home();
    cmd_add(&mut fs, &mut silent(), &TomlCodec, &env, "shell", &shell_paths()).unwrap();
    fs.put("/home/u/dotgirl/lock.toml", "bundles = 3").unwrap();
    let r = cmd_link(&mut fs, &mut silent(), &TomlCodec, &env, "shell");
    assert_eq!(r, Err(Error::SerializationFailure));
}

#[test]
fn link_keeps_the_records_of_other_bundles() {
    let (mut fs, env) = home();
    cmd_add(&mut fs, &mut silent(), &TomlCodec, &env, "shell", &vec!["/home/u/.bashrc".to_owned()])
        .unwrap();
    cmd_add(
        &mut fs,
        &mut silent(),
        &TomlCodec,
        &env,
        "editor",
        &vec!["/home/u/.config/nvim".to_owned()],
    )
    .unwrap();
    assert_eq!(cmd_link(&mut fs, &mut silent(), &TomlCodec, &env, "shell"), Ok(()));
    let lock = get_lockfile(&fs, &TomlCodec, &env).unwrap();
    assert_eq!(lock.bundles.len(), 2);
    assert_eq!(lock.bundles[0].id, "editor");
    assert_eq!(lock.bundles[0].entries[0].remote, "/home/u/.config/nvim");
    assert_eq!(lock.bundles[1].id, "shell");
    assert_eq!(lock.bundles[1].entries[0].remote, "/home/u/.bashrc");
}

#[test]
fn link_and_record_leaves_the_lock_alone_on_failure() {
    let (mut fs, _) = home();
    fs.put("/home/u/.vimrc", "mine").unwrap();
    let mut lock = Lock::default();
    lock.replace(Bundle { id: "shell".to_owned(), entries: vec![] });
    let bundle = Bundle {
        id: "shell".to_owned(),
        entries: vec![Entry { local: "/s/vimrc".to_owned(), remote: "/home/u/.vimrc".to_owned() }],
    };
    let r = link_and_record(&mut fs, &mut silent(), &mut lock, &bundle, &vec![], false);
    assert_eq!(r, Err(Error::Environment));
    assert_eq!(lock.bundles.len(), 1);
    assert!(lock.bundles[0].entries.is_empty());
    let r = link_and_record(&mut fs, &mut silent(), &mut lock, &bundle, &vec![], true);
    assert_eq!(r, Ok(()));
    assert_eq!(lock.bundles.len(), 1);
    assert_eq!(lock.bundles[0].entries.len(), 1);
}

#[test]
fn lock_is_empty_where_no_lock_file_exists() {
    let (fs, env) = home();
    let lock = get_lockfile(&fs, &TomlCodec, &env).unwrap();
    assert!(lock.bundles.is_empty());
}

#[test]
fn lock_is_read_as_it_was_written() {
    let (mut fs, env) = home();
    let lock = Lock {
        bundles: vec![
            Bundle { id: "empty".to_owned(), entries: vec![] },
            Bundle {
                id: "shell".to_owned(),
                entries: vec![Entry {
                    local: "/home/u/dotgirl/bundle/shell/with \"quotes\" and \\".to_owned(),
                    remote: "/home/u/with \"quotes\" and \\".to_owned(),
                }],
            },
        ],
    };
    assert_eq!(write_lockfile(&mut fs, &TomlCodec, &env, &lock), Ok(()));
    assert!(fs.is_dir("/home/u/dotgirl"));
    assert!(fs.is_file("/home/u/dotgirl/lock.toml"));
    let read = get_lockfile(&fs, &TomlCodec, &env).unwrap();
    assert_eq!(read.bundles.len(), 2);
    assert_eq!(read.bundles[0].id, "empty");
    assert!(read.bundles[0].entries.is_empty());
    assert_eq!(read.bundles[1].id, "shell");
    assert_eq!(read.bundles[1].entries[0].local, lock.bundles[1].entries[0].local);
    assert_eq!(read.bundles[1].entries[0].remote, lock.bundles[1].entries[0].remote);
}

#[test]
fn lock_is_not_written_where_the_codec_fails() {
    let (mut fs, env) = home();
    assert_eq!(
        write_lockfile(&mut fs, &Mute, &env, &Lock::default()),
        Err(Error::SerializationFailure)
    );
    assert!(fs.is_dir("/home/u/dotgirl"));
    assert!(!fs.is_file("/home/u/dotgirl/lock.toml"));
}

#[test]
fn bundle_metadata_is_read_as_it_was_written() {
    let (mut fs, env) = home();
    fs.mkdir_all("/home/u/dotgirl/bundle/shell").unwrap();
    let bundle = Bundle {
        id: "shell".to_owned(),
        entries: vec![Entry { local: "/l".to_owned(), remote: "/r".to_owned() }],
    };
    assert_eq!(save_bundle(&mut fs, &TomlCodec, &env, &bundle), Ok(()));
    let read = load_bundle(&fs, &TomlCodec, &env, "shell").unwrap();
    assert_eq!(read.id, "shell");
    assert_eq!(read.entries.len(), 1);
    assert_eq!(read.entries[0].local, "/l");
    assert_eq!(read.entries[0].remote, "/r");
}

#[test]
fn storage_dir_is_created_with_its_ancestors() {
    let mut fs = MemoryFilesystem::new();
    let env = Env::in_home(Some("/home/u")).unwrap();
    assert_eq!(get_storage_dir(&mut fs, &env), Ok("/home/u/dotgirl".to_owned()));
    assert!(fs.is_dir("/home/u/dotgirl"));
    assert!(fs.is_dir("/home"));
    assert_eq!(get_storage_dir(&mut fs, &env), Ok("/home/u/dotgirl".to_owned()));
}

#[test]
fn storage_dir_cannot_lie_under_a_file() {
    let mut fs = MemoryFilesystem::new();
    fs.put("/home/u", "a file").unwrap();
    let env = Env::in_home(Some("/home/u")).unwrap();
    assert_eq!(get_storage_dir(&mut fs, &env), Err(Error::PathConflict));
    assert!(!fs.is_dir("/home/u/dotgirl"));
}

#[test]
fn lossless_codec_passes_what_is_read_back_unchanged() {
    let codec = Lossless::new(TomlCodec);
    let bundle = Bundle {
        id: "shell".to_owned(),
        entries: vec![Entry { local: "/l".to_owned(), remote: "/r".to_owned() }],
    };
    let text = codec.encode_bundle(&bundle).unwrap();
    assert_eq!(text, TomlCodec.encode_bundle(&bundle).unwrap());
    assert!(codec.decode_bundle(&text).unwrap().same(&bundle));
    let lock = Lock { bundles: vec![bundle] };
    let text = codec.encode_lock(&lock).unwrap();
    assert_eq!(text, TomlCodec.encode_lock(&lock).unwrap());
    assert!(codec.decode_lock(&text).unwrap().same(&lock));
}

#[test]
fn lossless_codec_refuses_what_is_read_back_changed() {
    let codec = Lossless::new(Forgetful);
    let bundle = Bundle {
        id: "shell".to_owned(),
        entries: vec![Entry { local: "/l".to_owned(), remote: "/r".to_owned() }],
    };
    assert_eq!(codec.encode_bundle(&bundle), None);
    let empty = Bundle { id: "shell".to_owned(), entries: vec![] };
    assert!(codec.encode_bundle(&empty).is_some());
    let lock = Lock { bundles: vec![empty] };
    assert_eq!(codec.encode_lock(&lock), None);
    assert!(codec.encode_lock(&Lock::default()).is_some());
    assert_eq!(Lossless::new(Mute).encode_lock(&Lock::default()), None);
    assert!(codec.decode_bundle("id = 7").is_none());
}

#[test]
fn add_with_a_forgetful_codec_loses_the_record() {
    let (mut fs, env) = home();
    assert_eq!(cmd_add(&mut fs, &mut silent(), &Forgetful, &env, "shell", &shell_paths()), Ok(()));
    assert!(load_bundle(&fs, &TomlCodec, &env, "shell").unwrap().entries.is_empty());

    let (mut fs, env) = home();
    let codec = Lossless::new(Forgetful);
    let r = cmd_add(&mut fs, &mut silent(), &codec, &env, "shell", &shell_paths());
    assert_eq!(r, Err(Error::SerializationFailure));
    assert!(!fs.is_file("/home/u/dotgirl/bundle/shell/bundle.toml"));
}

#[test]
fn bundle_metadata_is_not_written_where_the_codec_fails() {
    let (mut fs, env) = home();
    fs.mkdir_all("/home/u/dotgirl/bundle/shell").unwrap();
    fs.put("/home/u/dotgirl/bundle/shell/bundle.toml", "id = \"shell\"\nentries = []\n").unwrap();
    let bundle = Bundle {
        id: "shell".to_owned(),
        entries: vec![Entry { local: "/l".to_owned(), remote: "/r".to_owned() }],
    };
    assert_eq!(save_bundle(&mut fs, &Mute, &env, &bundle), Err(Error::SerializationFailure));
    assert_eq!(
        save_bundle(&mut fs, &Lossless::new(Forgetful), &env, &bundle),
        Err(Error::SerializationFailure)
    );
    // what was there stays
    assert!(load_bundle(&fs, &TomlCodec, &env, "shell").unwrap().entries.is_empty());
    // a codec that can encode the bundle does write it
    assert_eq!(save_bundle(&mut fs, &Lossless::new(TomlCodec), &env, &bundle), Ok(()));
    assert_eq!(
        fs.get("/home/u/dotgirl/bundle/shell/bundle.toml"),
        Ok(TomlCodec.encode_bundle(&bundle).unwrap())
    );
    assert!(load_bundle(&fs, &TomlCodec, &env, "shell").unwrap().same(&bundle));
}

#[test]
fn lossless_codec_decodes_as_the_inner_codec_does() {
    let codec = Lossless::new(TomlCodec);
    let text = "id = \"shell\"\n\n[[entries]]\nlocal = \"/l\"\nremote = \"/r\"\n";
    let read = codec.decode_bundle(text).unwrap();
    assert!(read.same(&TomlCodec.decode_bundle(text).unwrap()));
    assert_eq!(read.id, "shell");
    assert_eq!(read.entries.len(), 1);
    assert_eq!(read.entries[0].local, "/l");
    assert_eq!(read.entries[0].remote, "/r");
    let text = "[[bundles]]\nid = \"shell\"\nentries = []\n";
    let lock = codec.decode_lock(text).unwrap();
    assert!(lock.same(&TomlCodec.decode_lock(text).unwrap()));
    assert_eq!(lock.bundles.len(), 1);
    assert_eq!(lock.bundles[0].id, "shell");
    assert!(codec.decode_lock("bundles = 3").is_none());
    assert!(codec.decode_bundle("entries = []").is_none());
}

#[test]
fn link_records_under_the_id_of_the_metadata_only() {
    let (mut fs, env) = home();
    cmd_add(&mut fs, &mut silent(), &TomlCodec, &env, "shell", &shell_paths()).unwrap();
    cmd_add(&mut fs, &mut silent(), &TomlCodec, &env, "editor", &vec![]).unwrap();
    // the metadata in the directory of `shell` now names another bundle
    let renamed = Bundle {
        id: "other".to_owned(),
        entries: vec![Entry {
            local: "/home/u/dotgirl/bundle/shell/bashrc".to_owned(),
            remote: "/home/u/.bashrc".to_owned(),
        }],
    };
    fs.put(
        "/home/u/dotgirl/bundle/shell/bundle.toml",
        &TomlCodec.encode_bundle(&renamed).unwrap(),
    )
    .unwrap();

    let mut prompt = silent();
    assert_eq!(cmd_link(&mut fs, &mut prompt, &TomlCodec, &env, "shell"), Ok(()));
    // the remotes recorded for `shell` were authorized
    assert_eq!(prompt.questions().len(), 0);
    let lock = get_lockfile(&fs, &TomlCodec, &env).unwrap();
    assert_eq!(lock.bundles.len(), 2);
    assert_eq!(lock.bundles[0].id, "editor");
    assert_eq!(lock.bundles[1].id, "other");
    assert_eq!(lock.bundles[1].entries.len(), 1);
    assert_eq!(lock.bundles[1].entries[0].remote, "/home/u/.bashrc");
    // no stale record of `shell` is left to authorize anything
    assert!(lock.linked_remotes("shell").is_empty());
}

#[test]
fn link_fails_with_serialization_failure_only_where_the_codec_refuses() {
    let (mut fs, env) = home();
    cmd_add(&mut fs, &mut silent(), &TomlCodec, &env, "shell", &shell_paths()).unwrap();
    // a codec that cannot encode the lock: the pass is made, the lock is not written
    let before = fs.get("/home/u/dotgirl/lock.toml").unwrap();
    fs.remove("/home/u/.bashrc").unwrap();
    assert_eq!(
        cmd_link(&mut fs, &mut silent(), &Mute, &env, "shell"),
        Err(Error::SerializationFailure)
    );
    assert!(fs.is_symlink("/home/u/.bashrc"));
    assert_eq!(fs.get("/home/u/dotgirl/lock.toml"), Ok(before));
}

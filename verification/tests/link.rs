use dotgirl::link::{interpret_choice, plan, prepare_parent, settle_target, Choice, Plan};
use dotgirl::prompt::Question;
use dotgirl::{
    link, Bundle, Entry, Error, Filesystem, MemoryFilesystem, Prompt, Reply, ScriptedPrompt,
};

fn entry(local: &str, remote: &str) -> Entry {
    Entry { local: local.to_owned(), remote: remote.to_owned() }
}

fn bundle(entries: Vec<Entry>) -> Bundle {
    Bundle { id: "shell".to_owned(), entries }
}

fn remotes(entries: &[Entry]) -> Vec<String> {
    entries.iter().map(|it| it.remote.clone()).collect()
}

fn messages(questions: &[Question]) -> Vec<String> {
    questions.iter().map(|it| it.message.clone()).collect()
}

fn stored() -> MemoryFilesystem {
    let mut fs = MemoryFilesystem::new();
    fs.mkdir_all("/s").unwrap();
    fs.put("/s/bashrc", "X").unwrap();
    fs.put("/s/vimrc", "Y").unwrap();
    fs.put("/s/zshrc", "Z").unwrap();
    fs.mkdir_all("/home/u").unwrap();
    fs
}

/// A filesystem on which every change fails.
struct ReadOnly;

impl Filesystem for ReadOnly {
    fn get(&self, _: &str) -> Result<String, Error> {
        Err(Error::IoFailure)
    }

    fn put(&mut self, _: &str, _: &str) -> Result<(), Error> {
        Err(Error::IoFailure)
    }

    fn mkdir_all(&mut self, _: &str) -> Result<(), Error> {
        Err(Error::IoFailure)
    }

    fn remove(&mut self, _: &str) -> Result<(), Error> {
        Err(Error::IoFailure)
    }

    fn copy(&mut self, _: &str, _: &str) -> Result<(), Error> {
        Err(Error::IoFailure)
    }

    fn symlink(&mut self, _: &str, _: &str) -> Result<(), Error> {
        Err(Error::IoFailure)
    }

    fn is_dir(&self, _: &str) -> bool {
        true
    }

    fn is_file(&self, _: &str) -> bool {
        false
    }

    fn is_symlink(&self, _: &str) -> bool {
        false
    }
}

#[test]
fn link_creates_symlinks_at_free_remotes() {
    let mut fs = stored();
    let mut prompt = ScriptedPrompt::new(vec![]);
    let bundle = bundle(vec![
        entry("/s/bashrc", "/home/u/.bashrc"),
        entry("/s/vimrc", "/home/u/.vimrc"),
    ]);
    let linked = link(&mut fs, &mut prompt, &bundle, &vec![], false).unwrap();
    assert_eq!(remotes(&linked), vec!["/home/u/.bashrc".to_owned(), "/home/u/.vimrc".to_owned()]);
    assert_eq!(linked[0].local, "/s/bashrc");
    assert_eq!(fs.link_target("/home/u/.bashrc"), Some("/s/bashrc".to_owned()));
    assert_eq!(fs.link_target("/home/u/.vimrc"), Some("/s/vimrc".to_owned()));
    assert_eq!(prompt.questions().len(), 0);
}

#[test]
fn link_creates_missing_ancestors() {
    let mut fs = stored();
    let mut prompt = ScriptedPrompt::new(vec![]);
    let bundle = bundle(vec![entry("/s/bashrc", "/home/u/deep/er/.bashrc")]);
    let linked = link(&mut fs, &mut prompt, &bundle, &vec![], false).unwrap();
    assert_eq!(linked.len(), 1);
    assert!(fs.is_dir("/home/u/deep"));
    assert!(fs.is_dir("/home/u/deep/er"));
    assert!(fs.is_symlink("/home/u/deep/er/.bashrc"));
    assert_eq!(prompt.questions().len(), 0);
}

#[test]
fn link_of_an_empty_bundle_does_nothing() {
    let mut fs = stored();
    let mut prompt = ScriptedPrompt::new(vec![Reply::Select(1)]);
    let linked = link(&mut fs, &mut prompt, &bundle(vec![]), &vec![], false).unwrap();
    assert!(linked.is_empty());
    assert_eq!(prompt.remaining(), 1);
    assert_eq!(prompt.questions().len(), 0);
}

#[test]
fn link_asks_about_an_occupied_remote_and_skips() {
    let mut fs = stored();
    fs.put("/home/u/.bashrc", "mine").unwrap();
    let mut prompt = ScriptedPrompt::new(vec![Reply::Select(0)]);
    let bundle = bundle(vec![
        entry("/s/bashrc", "/home/u/.bashrc"),
        entry("/s/vimrc", "/home/u/.vimrc"),
    ]);
    let linked = link(&mut fs, &mut prompt, &bundle, &vec![], false).unwrap();
    assert_eq!(remotes(&linked), vec!["/home/u/.vimrc".to_owned()]);
    assert_eq!(fs.get("/home/u/.bashrc"), Ok("mine".to_owned()));
    assert!(fs.is_symlink("/home/u/.vimrc"));
    assert_eq!(prompt.questions().len(), 1);
    assert_eq!(prompt.questions()[0].message, "/home/u/.bashrc already exists.");
    assert_eq!(
        prompt.questions()[0].choices,
        vec!["skip".to_owned(), "overwrite".to_owned(), "overwrite all".to_owned()]
    );
    assert_eq!(prompt.remaining(), 0);
}

#[test]
fn link_asks_about_an_occupied_remote_and_overwrites() {
    let mut fs = stored();
    fs.put("/home/u/.bashrc", "mine").unwrap();
    fs.put("/home/u/.vimrc", "mine too").unwrap();
    let mut prompt = ScriptedPrompt::new(vec![Reply::Select(1), Reply::Select(1)]);
    let bundle = bundle(vec![
        entry("/s/bashrc", "/home/u/.bashrc"),
        entry("/s/vimrc", "/home/u/.vimrc"),
    ]);
    let linked = link(&mut fs, &mut prompt, &bundle, &vec![], false).unwrap();
    assert_eq!(linked.len(), 2);
    assert_eq!(fs.link_target("/home/u/.bashrc"), Some("/s/bashrc".to_owned()));
    assert_eq!(fs.link_target("/home/u/.vimrc"), Some("/s/vimrc".to_owned()));
    assert_eq!(prompt.questions().len(), 2);
}

#[test]
fn overwrite_all_holds_for_the_entries_that_follow() {
    let mut fs = stored();
    fs.put("/home/u/.bashrc", "mine").unwrap();
    fs.put("/home/u/.vimrc", "mine too").unwrap();
    fs.put("/home/u/.zshrc", "mine as well").unwrap();
    let mut prompt = ScriptedPrompt::new(vec![Reply::Select(0), Reply::Select(2)]);
    let bundle = bundle(vec![
        entry("/s/bashrc", "/home/u/.bashrc"),
        entry("/s/vimrc", "/home/u/.vimrc"),
        entry("/s/zshrc", "/home/u/.zshrc"),
    ]);
    let linked = link(&mut fs, &mut prompt, &bundle, &vec![], false).unwrap();
    assert_eq!(remotes(&linked), vec!["/home/u/.vimrc".to_owned(), "/home/u/.zshrc".to_owned()]);
    assert!(fs.is_file("/home/u/.bashrc"));
    assert!(fs.is_symlink("/home/u/.vimrc"));
    assert!(fs.is_symlink("/home/u/.zshrc"));
    assert_eq!(prompt.questions().len(), 2);
}

#[test]
fn overwrite_all_from_the_start_asks_nothing() {
    let mut fs = stored();
    fs.put("/home/u/.bashrc", "mine").unwrap();
    fs.mkdir_all("/home/u/.vimrc/inner").unwrap();
    let mut prompt = ScriptedPrompt::new(vec![]);
    let bundle = bundle(vec![
        entry("/s/bashrc", "/home/u/.bashrc"),
        entry("/s/vimrc", "/home/u/.vimrc"),
    ]);
    let linked = link(&mut fs, &mut prompt, &bundle, &vec![], true).unwrap();
    assert_eq!(linked.len(), 2);
    assert!(fs.is_symlink("/home/u/.bashrc"));
    assert!(fs.is_symlink("/home/u/.vimrc"));
    assert!(!fs.is_dir("/home/u/.vimrc/inner"));
    assert_eq!(prompt.questions().len(), 0);
}

#[test]
fn authorized_remotes_are_replaced_without_a_question() {
    let mut fs = stored();
    fs.symlink("/old/bashrc", "/home/u/.bashrc").unwrap();
    fs.put("/home/u/.vimrc", "mine").unwrap();
    let mut prompt = ScriptedPrompt::new(vec![Reply::Select(0)]);
    let bundle = bundle(vec![
        entry("/s/bashrc", "/home/u/.bashrc"),
        entry("/s/vimrc", "/home/u/.vimrc"),
    ]);
    let authorized = vec!["/home/u/.bashrc".to_owned()];
    let linked = link(&mut fs, &mut prompt, &bundle, &authorized, false).unwrap();
    assert_eq!(remotes(&linked), vec!["/home/u/.bashrc".to_owned()]);
    assert_eq!(fs.link_target("/home/u/.bashrc"), Some("/s/bashrc".to_owned()));
    assert_eq!(fs.get("/home/u/.vimrc"), Ok("mine".to_owned()));
    assert_eq!(messages(prompt.questions()), vec!["/home/u/.vimrc already exists.".to_owned()]);
}

#[test]
fn linking_again_asks_nothing() {
    let mut fs = stored();
    let bundle = bundle(vec![
        entry("/s/bashrc", "/home/u/.bashrc"),
        entry("/s/vimrc", "/home/u/.vimrc"),
    ]);
    let mut first = ScriptedPrompt::new(vec![]);
    let linked = link(&mut fs, &mut first, &bundle, &vec![], false).unwrap();
    let authorized = remotes(&linked);
    let mut second = ScriptedPrompt::new(vec![]);
    let again = link(&mut fs, &mut second, &bundle, &authorized, false).unwrap();
    assert_eq!(remotes(&again), authorized);
    assert_eq!(second.questions().len(), 0);
    assert_eq!(fs.link_target("/home/u/.bashrc"), Some("/s/bashrc".to_owned()));
    assert_eq!(fs.link_target("/home/u/.vimrc"), Some("/s/vimrc".to_owned()));
}

#[test]
fn a_skipped_entry_is_asked_about_again() {
    let mut fs = stored();
    fs.put("/home/u/.bashrc", "mine").unwrap();
    let bundle = bundle(vec![entry("/s/bashrc", "/home/u/.bashrc")]);
    let mut first = ScriptedPrompt::new(vec![Reply::Select(0)]);
    let linked = link(&mut fs, &mut first, &bundle, &vec![], false).unwrap();
    assert!(linked.is_empty());
    assert_eq!(first.questions().len(), 1);
    let authorized = remotes(&linked);
    let mut second = ScriptedPrompt::new(vec![Reply::Select(1)]);
    let again = link(&mut fs, &mut second, &bundle, &authorized, false).unwrap();
    assert_eq!(second.questions().len(), 1);
    assert_eq!(again.len(), 1);
    assert!(fs.is_symlink("/home/u/.bashrc"));
}

#[test]
fn a_file_in_the_place_of_the_parent_is_deleted_on_confirmation() {
    let mut fs = stored();
    fs.put("/home/u/.config", "a file").unwrap();
    let mut prompt = ScriptedPrompt::new(vec![Reply::Confirm(true)]);
    let bundle = bundle(vec![entry("/s/vimrc", "/home/u/.config/nvim")]);
    let linked = link(&mut fs, &mut prompt, &bundle, &vec![], false).unwrap();
    assert_eq!(linked.len(), 1);
    assert!(fs.is_dir("/home/u/.config"));
    assert_eq!(fs.link_target("/home/u/.config/nvim"), Some("/s/vimrc".to_owned()));
    assert_eq!(
        messages(prompt.questions()),
        vec![
            "You're trying to link the file /home/u/.config/nvim, \
             but /home/u/.config is a file. \
             Do you want to overwrite the file and create a directory instead?"
                .to_owned()
        ]
    );
    assert!(prompt.questions()[0].choices.is_empty());
}

#[test]
fn a_refused_confirmation_ends_the_pass() {
    let mut fs = stored();
    fs.put("/home/u/.config", "a file").unwrap();
    let mut prompt = ScriptedPrompt::new(vec![Reply::Confirm(false)]);
    let bundle = bundle(vec![
        entry("/s/bashrc", "/home/u/.bashrc"),
        entry("/s/vimrc", "/home/u/.config/nvim"),
        entry("/s/zshrc", "/home/u/.zshrc"),
    ]);
    let r = link(&mut fs, &mut prompt, &bundle, &vec![], false);
    assert!(matches!(r, Err(Error::PathConflict)));
    // what was linked before stays linked, what follows is not touched
    assert!(fs.is_symlink("/home/u/.bashrc"));
    assert_eq!(fs.get("/home/u/.config"), Ok("a file".to_owned()));
    assert!(!fs.is_symlink("/home/u/.zshrc"));
}

#[test]
fn a_symlink_in_the_place_of_the_parent_is_a_conflict() {
    let mut fs = stored();
    fs.symlink("/elsewhere", "/home/u/.config").unwrap();
    let mut prompt = ScriptedPrompt::new(vec![]);
    let bundle = bundle(vec![entry("/s/vimrc", "/home/u/.config/nvim")]);
    let r = link(&mut fs, &mut prompt, &bundle, &vec![], false);
    assert!(matches!(r, Err(Error::PathConflict)));
    assert_eq!(prompt.questions().len(), 0);
    assert!(fs.is_symlink("/home/u/.config"));
}

#[test]
fn a_prompt_without_answers_fails() {
    let mut fs = stored();
    fs.put("/home/u/.bashrc", "mine").unwrap();
    let mut prompt = ScriptedPrompt::new(vec![]);
    let bundle = bundle(vec![entry("/s/bashrc", "/home/u/.bashrc")]);
    let r = link(&mut fs, &mut prompt, &bundle, &vec![], false);
    assert!(matches!(r, Err(Error::Environment)));
    assert_eq!(fs.get("/home/u/.bashrc"), Ok("mine".to_owned()));
    assert_eq!(prompt.questions().len(), 1);
}

#[test]
fn an_answer_of_the_wrong_kind_fails() {
    let mut fs = stored();
    fs.put("/home/u/.bashrc", "mine").unwrap();
    let mut prompt = ScriptedPrompt::new(vec![Reply::Confirm(true), Reply::Select(1)]);
    let bundle = bundle(vec![entry("/s/bashrc", "/home/u/.bashrc")]);
    let r = link(&mut fs, &mut prompt, &bundle, &vec![], false);
    assert!(matches!(r, Err(Error::Environment)));
    assert_eq!(prompt.remaining(), 1);
}

#[test]
fn a_choice_out_of_range_fails() {
    let mut prompt = ScriptedPrompt::new(vec![Reply::Select(3), Reply::Select(2)]);
    assert_eq!(prompt.select("which?", &["a", "b", "c"]), Err(Error::Environment));
    assert_eq!(prompt.select("which?", &["a", "b", "c"]), Ok(2));
    assert_eq!(prompt.select("which?", &["a", "b", "c"]), Err(Error::Environment));
    assert_eq!(prompt.questions().len(), 3);
    assert_eq!(prompt.questions()[1].message, "which?");
    assert_eq!(
        prompt.questions()[1].choices,
        vec!["a".to_owned(), "b".to_owned(), "c".to_owned()]
    );
}

#[test]
fn scripted_prompt_answers_in_order() {
    let mut prompt = ScriptedPrompt::new(vec![Reply::Confirm(true), Reply::Confirm(false)]);
    assert_eq!(prompt.remaining(), 2);
    assert_eq!(prompt.confirm("first?"), Ok(true));
    assert_eq!(prompt.confirm("second?"), Ok(false));
    assert_eq!(prompt.confirm("third?"), Err(Error::Environment));
    assert_eq!(prompt.remaining(), 0);
    assert_eq!(
        messages(prompt.questions()),
        vec!["first?".to_owned(), "second?".to_owned(), "third?".to_owned()]
    );
}

#[test]
fn choices_are_skip_overwrite_and_overwrite_all() {
    assert_eq!(interpret_choice(0), Choice::Skip);
    assert_eq!(interpret_choice(1), Choice::Overwrite);
    assert_eq!(interpret_choice(2), Choice::OverwriteAll);
    assert_eq!(interpret_choice(7), Choice::Overwrite);
}

#[test]
fn prepare_parent_leaves_the_root_alone() {
    let mut fs = MemoryFilesystem::new();
    let mut prompt = ScriptedPrompt::new(vec![]);
    assert_eq!(prepare_parent(&mut fs, &mut prompt, &"/".to_owned()), Ok(()));
    assert!(!fs.is_dir("/"));
    assert_eq!(prepare_parent(&mut fs, &mut prompt, &"/top".to_owned()), Ok(()));
    assert!(fs.is_dir("/"));
    assert!(!fs.is_dir("/top"));
}

#[test]
fn settle_target_reports_what_was_chosen() {
    let mut fs = stored();
    fs.put("/home/u/.bashrc", "mine").unwrap();
    let item = entry("/s/bashrc", "/home/u/.bashrc");
    let mut prompt = ScriptedPrompt::new(vec![Reply::Select(0), Reply::Select(2)]);
    let skipped = settle_target(&mut fs, &mut prompt, &item, &vec![], false).unwrap();
    assert!(!skipped.linked);
    assert!(!skipped.overwrite_all);
    let replaced = settle_target(&mut fs, &mut prompt, &item, &vec![], false).unwrap();
    assert!(replaced.linked);
    assert!(replaced.overwrite_all);
    assert!(fs.is_symlink("/home/u/.bashrc"));
}

#[test]
fn a_failure_of_the_filesystem_ends_the_pass() {
    let mut fs = ReadOnly;
    let mut prompt = ScriptedPrompt::new(vec![]);
    let bundle = bundle(vec![entry("/s/bashrc", "/home/u/.bashrc")]);
    let r = link(&mut fs, &mut prompt, &bundle, &vec![], true);
    assert!(matches!(r, Err(Error::IoFailure)));
}

#[test]
fn plan_asks_only_about_occupied_remotes_that_are_not_authorized() {
    assert_eq!(plan(false, false, false), Plan::Create);
    assert_eq!(plan(false, true, false), Plan::Create);
    assert_eq!(plan(false, false, true), Plan::Create);
    assert_eq!(plan(false, true, true), Plan::Create);
    assert_eq!(plan(true, true, false), Plan::Replace);
    assert_eq!(plan(true, false, true), Plan::Replace);
    assert_eq!(plan(true, true, true), Plan::Replace);
    assert_eq!(plan(true, false, false), Plan::Ask);
}

#[test]
fn link_of_an_empty_bundle_succeeds_on_any_filesystem() {
    let mut fs = ReadOnly;
    let mut prompt = ScriptedPrompt::new(vec![Reply::Confirm(true)]);
    let linked = link(&mut fs, &mut prompt, &bundle(vec![]), &vec!["/a".to_owned()], false);
    assert!(matches!(linked, Ok(ref entries) if entries.is_empty()));
    assert_eq!(prompt.questions().len(), 0);
    assert_eq!(prompt.remaining(), 1);
}

#[test]
fn a_skipped_entry_of_a_longer_bundle_is_not_reported() {
    let mut fs = stored();
    fs.put("/home/u/.vimrc", "mine").unwrap();
    let bundle = bundle(vec![
        entry("/s/bashrc", "/home/u/.bashrc"),
        entry("/s/vimrc", "/home/u/.vimrc"),
        entry("/s/zshrc", "/home/u/.zshrc"),
    ]);
    let mut first = ScriptedPrompt::new(vec![Reply::Select(0)]);
    let linked = link(&mut fs, &mut first, &bundle, &vec![], false).unwrap();
    assert_eq!(remotes(&linked), vec!["/home/u/.bashrc".to_owned(), "/home/u/.zshrc".to_owned()]);
    // the next pass, authorized by what was linked, asks about the skipped entry only
    let mut second = ScriptedPrompt::new(vec![Reply::Select(0)]);
    let again = link(&mut fs, &mut second, &bundle, &remotes(&linked), false).unwrap();
    assert_eq!(messages(second.questions()), vec!["/home/u/.vimrc already exists.".to_owned()]);
    assert_eq!(remotes(&again), remotes(&linked));
    assert_eq!(fs.get("/home/u/.vimrc"), Ok("mine".to_owned()));
}

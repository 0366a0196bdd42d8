//! Decisions of the Windows installer: which integrations are installed by
//! default, how the planned registry and file actions are described to the
//! user, and how it reads its own command line.

use vstd::prelude::*;

use crate::text::{strs, copy_str, decimal, push_decimal, push_str, str_eq};

verus! {

/// Which integrations the installer sets up.
#[derive(Clone, Copy, Debug, PartialEq, Eq, Structural)]
pub struct InstallOpts {
    /// Explorer context-menu entries.
    pub context_menu: bool,
    /// The `.next` file association.
    pub association: bool,
    /// A Start-menu shortcut.
    pub start_menu: bool,
    /// A desktop shortcut.
    pub desktop: bool,
}

impl Default for InstallOpts {
    /// Everything but the desktop shortcut.
    fn default() -> (r: Self)
        ensures
            r == (InstallOpts { context_menu: true, association: true, start_menu: true, desktop: false }),
    {
        InstallOpts { context_menu: true, association: true, start_menu: true, desktop: false }
    }
}

/// The per-user registry roots the installer writes under.
#[derive(Clone, Copy, Debug, PartialEq, Eq, Structural)]
pub enum Root {
    /// `HKCU\Software\Classes`.
    Classes,
    /// The per-user uninstall entries.
    Uninstall,
}

/// One planned install or uninstall action. Paths are Windows paths as text.
#[derive(Clone, Debug)]
pub enum Act {
    /// Write a file.
    File { path: String, data: Vec<u8> },
    /// Set a string value (the default value when `name` is empty).
    SetString { root: Root, path: String, name: String, value: String },
    /// Set a DWORD value.
    SetDword { root: Root, path: String, name: String, value: u32 },
    /// Delete a key and its subtree.
    Delete { root: Root, path: String },
    /// Create a `.lnk` shortcut; `args` are fixed arguments.
    Shortcut { lnk: String, target: String, icon: String, args: String },
    /// Remove a file.
    RemoveFile { path: String },
}

/// The text a registry root is shown as.
pub open spec fn root_label_spec(r: Root) -> Seq<char> {
    match r {
        Root::Classes => "HKCU\\Software\\Classes"@,
        Root::Uninstall => "HKCU\\Software\\Microsoft\\Windows\\CurrentVersion\\Uninstall"@,
    }
}

/// The text a registry root is shown as.
pub fn root_label(r: &Root) -> (s: &'static str)
    ensures
        s@ == root_label_spec(*r),
{
    match r {
        Root::Classes => "HKCU\\Software\\Classes",
        Root::Uninstall => "HKCU\\Software\\Microsoft\\Windows\\CurrentVersion\\Uninstall",
    }
}

/// The one-line description of an action in the install plan.
pub open spec fn act_short_spec(a: Act) -> Seq<char> {
    match a {
        Act::File { path, .. } => "write  "@ + path@,
        Act::SetString { root, path, name, value } => if name@.len() == 0 {
            "set    "@ + root_label_spec(root) + "\\"@ + path@ + " = "@ + value@
        } else {
            "set    "@ + root_label_spec(root) + "\\"@ + path@ + " ["@ + name@ + "] = "@ + value@
        },
        Act::SetDword { root, path, name, value } => "set    "@ + root_label_spec(root) + "\\"@ + path@ + " ["@
            + name@ + "] = "@ + decimal(value as nat),
        Act::Delete { root, path } => "delete "@ + root_label_spec(root) + "\\"@ + path@,
        Act::Shortcut { lnk, .. } => "shortcut "@ + lnk@,
        Act::RemoveFile { path } => "remove "@ + path@,
    }
}

/// The one-line description of an action in the install plan.
pub fn act_short(a: &Act) -> (r: String)
    ensures
        r@ == act_short_spec(*a),
{
    let mut out = String::new();
    match a {
        Act::File { path, .. } => {
            push_str(&mut out, "write  ");
            push_str(&mut out, path.as_str());
        },
        Act::SetString { root, path, name, value } => {
            push_str(&mut out, "set    ");
            push_str(&mut out, root_label(root));
            push_str(&mut out, "\\");
            push_str(&mut out, path.as_str());
            if name.as_str().unicode_len() == 0 {
                push_str(&mut out, " = ");
            } else {
                push_str(&mut out, " [");
                push_str(&mut out, name.as_str());
                push_str(&mut out, "] = ");
            }
            push_str(&mut out, value.as_str());
        },
        Act::SetDword { root, path, name, value } => {
            push_str(&mut out, "set    ");
            push_str(&mut out, root_label(root));
            push_str(&mut out, "\\");
            push_str(&mut out, path.as_str());
            push_str(&mut out, " [");
            push_str(&mut out, name.as_str());
            push_str(&mut out, "] = ");
            push_decimal(&mut out, *value as u64);
        },
        Act::Delete { root, path } => {
            push_str(&mut out, "delete ");
            push_str(&mut out, root_label(root));
            push_str(&mut out, "\\");
            push_str(&mut out, path.as_str());
        },
        Act::Shortcut { lnk, .. } => {
            push_str(&mut out, "shortcut ");
            push_str(&mut out, lnk.as_str());
        },
        Act::RemoveFile { path } => {
            push_str(&mut out, "remove ");
            push_str(&mut out, path.as_str());
        },
    }
    out
}

/// Index of the first argument equal to `name`, if any.
pub open spec fn first_index(args: Seq<Seq<char>>, name: Seq<char>) -> Option<int>
    decreases args.len(),
{
    if args.len() == 0 {
        None
    } else if args[0] == name {
        Some(0)
    } else {
        match first_index(args.drop_first(), name) {
            Some(i) => Some(i + 1),
            None => None,
        }
    }
}

/// The value that follows the first occurrence of `name`.
pub open spec fn arg_value_spec(args: Seq<Seq<char>>, name: Seq<char>) -> Option<Seq<char>> {
    match first_index(args, name) {
        Some(i) => if i + 1 < args.len() {
            Some(args[i + 1])
        } else {
            None
        },
        None => None,
    }
}

proof fn lemma_first_index_found(args: Seq<Seq<char>>, name: Seq<char>, i: int)
    requires
        0 <= i < args.len(),
        args[i] == name,
        forall|j: int| 0 <= j < i ==> args[j] != name,
    ensures
        first_index(args, name) == Some(i),
    decreases i,
{
    if i > 0 {
        assert(args[0] != name);
        lemma_first_index_found(args.drop_first(), name, i - 1);
    }
}

proof fn lemma_first_index_absent(args: Seq<Seq<char>>, name: Seq<char>)
    requires
        forall|j: int| 0 <= j < args.len() ==> args[j] != name,
    ensures
        first_index(args, name) is None,
    decreases args.len(),
{
    if args.len() > 0 {
        assert(args[0] != name);
        lemma_first_index_absent(args.drop_first(), name);
    }
}

/// The value that follows the first `name` on the command line.
pub fn arg_value(args: &[String], name: &str) -> (r: Option<String>)
    ensures
        match r {
            Some(v) => arg_value_spec(strs(args@), name@) == Some(v@),
            None => arg_value_spec(strs(args@), name@) is None,
        },
{
    let ghost a = strs(args@);
    let mut i: usize = 0;
    while i < args.len()
        invariant
            i <= args@.len(),
            a == strs(args@),
            forall|j: int| 0 <= j < i ==> a[j] != name@,
        decreases args@.len() - i,
    {
        if str_eq(args[i].as_str(), name) {
            proof {
                lemma_first_index_found(a, name@, i as int);
            }
            if i + 1 < args.len() {
                assert(a[i + 1] == args@[i + 1]@);
                return Some(copy_str(args[i + 1].as_str()));
            }
            return None;
        }
        i = i + 1;
    }
    proof {
        lemma_first_index_absent(a, name@);
    }
    None
}

/// Registry key (under the classes root) of the "Compress to .next" verb for files.
pub const MENU_COMPRESS: &'static str = "*\\shell\\NextarCompress";
/// Registry key of the "Compress to .next and email" verb for files.
pub const MENU_EMAIL: &'static str = "*\\shell\\NextarEmail";
/// Registry key of the "Compress to .next" verb for folders.
pub const MENU_COMPRESS_DIR: &'static str = "Directory\\shell\\NextarCompress";
/// Registry key of the "Compress to .next and email" verb for folders.
pub const MENU_EMAIL_DIR: &'static str = "Directory\\shell\\NextarEmail";
/// Registry key of the "Extract here" verb for archives.
pub const MENU_EXTRACT: &'static str = "SystemFileAssociations\\.next\\shell\\NextarExtract";
/// Registry key of the "Extract .next… here" verb for folders.
pub const MENU_EXTRACT_INTO: &'static str = "Directory\\shell\\NextarExtractInto";
/// Registry key of the "Open in nextar" verb for archives.
pub const MENU_OPEN: &'static str = "SystemFileAssociations\\.next\\shell\\NextarOpen";
/// Registry key of the "Repair with .nvol…" verb for archives.
pub const MENU_REPAIR: &'static str = "SystemFileAssociations\\.next\\shell\\NextarRepair";
/// The programmatic id the `.next` association points at.
pub const PROGID: &'static str = "nextar-gui";
/// The installer's version.
pub const VERSION: &'static str = "0.1.0";

/// What an action stands for, over the characters of its texts.
pub enum ActSpec {
    File(Seq<char>, Seq<u8>),
    SetString(Root, Seq<char>, Seq<char>, Seq<char>),
    SetDword(Root, Seq<char>, Seq<char>, u32),
    Delete(Root, Seq<char>),
    Shortcut(Seq<char>, Seq<char>, Seq<char>, Seq<char>),
    RemoveFile(Seq<char>),
}

impl View for Act {
    type V = ActSpec;

    open spec fn view(&self) -> ActSpec {
        match self {
            Act::File { path, data } => ActSpec::File(path@, data@),
            Act::SetString { root, path, name, value } => ActSpec::SetString(*root, path@, name@, value@),
            Act::SetDword { root, path, name, value } => ActSpec::SetDword(*root, path@, name@, *value),
            Act::Delete { root, path } => ActSpec::Delete(*root, path@),
            Act::Shortcut { lnk, target, icon, args } => ActSpec::Shortcut(lnk@, target@, icon@, args@),
            Act::RemoveFile { path } => ActSpec::RemoveFile(path@),
        }
    }
}

/// The views of a list of actions.
pub open spec fn acts_view(v: Seq<Act>) -> Seq<ActSpec> {
    Seq::new(v.len(), |i: int| v[i]@)
}

/// `p` joined with a relative `name` the way Windows paths join
/// (`PathBuf::push`): a `\` goes between them unless `p` is empty, already
/// ends with a separator, or is a bare drive.
pub open spec fn join_spec(p: Seq<char>, name: Seq<char>) -> Seq<char> {
    crate::paths::push_spec(p, name, true)
}

/// A path in double quotes.
pub open spec fn quoted(p: Seq<char>) -> Seq<char> {
    "\""@ + p + "\""@
}

/// An icon reference: the first icon of a quoted executable.
pub open spec fn icon_of(q: Seq<char>) -> Seq<char> {
    q + ",0"@
}

/// The three registry values of a context-menu verb: its label, its
/// command and its icon.
pub open spec fn menu_entries(menu: Seq<char>, label: Seq<char>, cmd: Seq<char>, icon: Seq<char>) -> Seq<ActSpec> {
    seq![
        ActSpec::SetString(Root::Classes, menu, Seq::empty(), label),
        ActSpec::SetString(Root::Classes, menu + "\\command"@, Seq::empty(), cmd),
        ActSpec::SetString(Root::Classes, menu + "\\Icon"@, Seq::empty(), icon),
    ]
}

/// What the installer found on the machine and carries along.
pub struct InstallEnv {
    /// The running installer's path and contents, when it could be read.
    pub self_copy: Option<(String, Vec<u8>)>,
    /// Whether `.next` is already associated with another program.
    pub assoc_taken: bool,
    /// The Start-menu shortcut's path.
    pub start_lnk: String,
    /// The desktop shortcut's path.
    pub desktop_lnk: String,
    /// The user's Send To folder.
    pub sendto_dir: String,
    /// The command-line program's executable.
    pub cli_exe: Vec<u8>,
    /// The desktop app's executable.
    pub gui_exe: Vec<u8>,
}

/// The context-menu verbs, all run through the desktop app at `gui`.
pub open spec fn menu_plan(gui: Seq<char>) -> Seq<ActSpec> {
    Seq::empty()
        + menu_entries(MENU_COMPRESS@, "Compress to .next"@, quoted(gui) + " --run create \"%1\""@, icon_of(quoted(gui)))
        + menu_entries(MENU_EXTRACT@, "Extract here"@, quoted(gui) + " --run extract --here \"%1\""@, icon_of(quoted(gui)))
        + menu_entries(MENU_EXTRACT_INTO@, "Extract .next… here"@, quoted(gui) + " --run extract-into \"%1\""@, icon_of(quoted(gui)))
        + menu_entries(MENU_COMPRESS_DIR@, "Compress to .next"@, quoted(gui) + " --run create \"%1\""@, icon_of(quoted(gui)))
        + menu_entries(MENU_EMAIL_DIR@, "Compress to .next and email"@, quoted(gui) + " --run create-email \"%1\""@, icon_of(quoted(gui)))
        + menu_entries(MENU_EMAIL@, "Compress to .next and email"@, quoted(gui) + " --run create-email \"%1\""@, icon_of(quoted(gui)))
        + menu_entries(MENU_OPEN@, "Open in nextar"@, quoted(gui) + " \"%1\""@, icon_of(quoted(gui)))
        + menu_entries(MENU_REPAIR@, "Repair with .nvol…"@, quoted(gui) + " --run repair \"%1\""@, icon_of(quoted(gui)))
}

/// The `.next` association: the extension, the program id, its open
/// command and its icon.
pub open spec fn assoc_plan(gui: Seq<char>) -> Seq<ActSpec> {
    seq![
        ActSpec::SetString(Root::Classes, ".next"@, Seq::empty(), PROGID@),
        ActSpec::SetString(Root::Classes, PROGID@, Seq::empty(), "nextar archive"@),
        ActSpec::SetString(Root::Classes, PROGID@ + "\\shell\\open\\command"@, Seq::empty(), quoted(gui) + " \"%1\""@),
        ActSpec::SetString(Root::Classes, PROGID@ + "\\DefaultIcon"@, Seq::empty(), icon_of(quoted(gui))),
    ]
}

/// The uninstall entry of the installation in `prefix`.
pub open spec fn uninstall_entry_plan(prefix: Seq<char>, est: u32) -> Seq<ActSpec> {
    seq![
        ActSpec::SetDword(Root::Uninstall, "nextar"@, "EstimatedSize"@, est),
        ActSpec::SetString(Root::Uninstall, "nextar"@, "DisplayName"@, "nextar"@),
        ActSpec::SetString(Root::Uninstall, "nextar"@, "DisplayVersion"@, VERSION@),
        ActSpec::SetString(Root::Uninstall, "nextar"@, "Publisher"@, "nextar"@),
        ActSpec::SetString(Root::Uninstall, "nextar"@, "InstallLocation"@, prefix),
        ActSpec::SetString(Root::Uninstall, "nextar"@, "DisplayIcon"@, icon_of(quoted(join_spec(prefix, "nextar.exe"@)))),
        ActSpec::SetString(
            Root::Uninstall,
            "nextar"@,
            "UninstallString"@,
            quoted(join_spec(prefix, "nextar-setup.exe"@)) + " --uninstall"@,
        ),
    ]
}

/// The shortcuts: Start menu, desktop, and the Send To entry that comes
/// with the context menus.
pub open spec fn shortcut_plan(opts: InstallOpts, gui: Seq<char>, start_lnk: Seq<char>, desktop_lnk: Seq<char>, sendto_dir: Seq<char>) -> Seq<ActSpec> {
    (if opts.start_menu {
        seq![ActSpec::Shortcut(start_lnk, gui, gui, Seq::empty())]
    } else {
        Seq::empty()
    }) + (if opts.desktop {
        seq![ActSpec::Shortcut(desktop_lnk, gui, gui, Seq::empty())]
    } else {
        Seq::empty()
    }) + (if opts.context_menu {
        seq![ActSpec::Shortcut(join_spec(sendto_dir, "Compress to .next.lnk"@), gui, gui, "--run create"@)]
    } else {
        Seq::empty()
    })
}

/// The executables to write: both programs, and the installer itself
/// unless it already runs from its installed place.
pub open spec fn payload_plan(prefix: Seq<char>, env: InstallEnv) -> Seq<ActSpec> {
    let setup = join_spec(prefix, "nextar-setup.exe"@);
    seq![
        ActSpec::File(join_spec(prefix, "nextar.exe"@), env.cli_exe@),
        ActSpec::File(join_spec(prefix, "nextar-gui.exe"@), env.gui_exe@),
    ] + match env.self_copy {
        Some((sp, data)) => if sp@ != setup {
            seq![ActSpec::File(setup, data@)]
        } else {
            Seq::empty()
        },
        None => Seq::empty(),
    }
}

/// The install plan, in order: the executables, the context-menu verbs,
/// the `.next` association (unless another program holds it), the
/// shortcuts, the Send To entry, and the uninstall entry.
pub open spec fn install_plan(prefix: Seq<char>, opts: InstallOpts, env: InstallEnv) -> Seq<ActSpec> {
    let gui = join_spec(prefix, "nextar-gui.exe"@);
    payload_plan(prefix, env) + (if opts.context_menu {
        menu_plan(gui)
    } else {
        Seq::empty()
    }) + (if opts.association && !env.assoc_taken {
        assoc_plan(gui)
    } else {
        Seq::empty()
    }) + shortcut_plan(opts, gui, env.start_lnk@, env.desktop_lnk@, env.sendto_dir@) + uninstall_entry_plan(
        prefix,
        ((env.cli_exe@.len() + env.gui_exe@.len()) / 1024) as u32,
    )
}

/// `a` followed by `b`.
fn cat(a: &str, b: &str) -> (r: String)
    ensures
        r@ == a@ + b@,
{
    let mut r = copy_str(a);
    push_str(&mut r, b);
    r
}

/// `p` joined with a relative name.
pub fn join(p: &str, name: &str) -> (r: String)
    ensures
        r@ == join_spec(p@, name@),
{
    let cs = crate::text::chars_of(p);
    crate::paths::push_name(cs.as_slice(), name, true)
}

fn quote(p: &str) -> (r: String)
    ensures
        r@ == quoted(p@),
{
    let mut r = copy_str("\"");
    push_str(&mut r, p);
    push_str(&mut r, "\"");
    r
}

fn push_act(acts: &mut Vec<Act>, a: Act)
    ensures
        acts_view(final(acts)@) == acts_view(old(acts)@).push(a@),
{
    acts.push(a);
    assert(acts_view(final(acts)@) =~= acts_view(old(acts)@).push(a@));
}

fn set_value(root: Root, path: String, name: &str, value: String) -> (r: Act)
    ensures
        r@ == ActSpec::SetString(root, path@, name@, value@),
{
    Act::SetString { root, path, name: copy_str(name), value }
}

fn push_menu(acts: &mut Vec<Act>, menu: &str, label: &str, cmd: String, icon: &str)
    ensures
        acts_view(final(acts)@) == acts_view(old(acts)@) + menu_entries(menu@, label@, cmd@, icon@),
{
    let ghost start = acts_view(acts@);
    proof {
        reveal_strlit("");
        assert(""@ =~= Seq::<char>::empty());
    }
    push_act(acts, set_value(Root::Classes, copy_str(menu), "", copy_str(label)));
    push_act(acts, set_value(Root::Classes, cat(menu, "\\command"), "", cmd));
    push_act(acts, set_value(Root::Classes, cat(menu, "\\Icon"), "", copy_str(icon)));
    assert(acts_view(acts@) =~= start + menu_entries(menu@, label@, cmd@, icon@));
}

fn push_menus(acts: &mut Vec<Act>, gui: &str)
    ensures
        acts_view(final(acts)@) == acts_view(old(acts)@) + menu_plan(gui@),
{
    let ghost start = acts_view(acts@);
    let gui_q = quote(gui);
    let gui_icon = cat(gui_q.as_str(), ",0");
    push_menu(acts, MENU_COMPRESS, "Compress to .next", cat(gui_q.as_str(), " --run create \"%1\""), gui_icon.as_str());
    push_menu(acts, MENU_EXTRACT, "Extract here", cat(gui_q.as_str(), " --run extract --here \"%1\""), gui_icon.as_str());
    push_menu(acts, MENU_EXTRACT_INTO, "Extract .next… here", cat(gui_q.as_str(), " --run extract-into \"%1\""), gui_icon.as_str());
    push_menu(acts, MENU_COMPRESS_DIR, "Compress to .next", cat(gui_q.as_str(), " --run create \"%1\""), gui_icon.as_str());
    push_menu(acts, MENU_EMAIL_DIR, "Compress to .next and email", cat(gui_q.as_str(), " --run create-email \"%1\""), gui_icon.as_str());
    push_menu(acts, MENU_EMAIL, "Compress to .next and email", cat(gui_q.as_str(), " --run create-email \"%1\""), gui_icon.as_str());
    push_menu(acts, MENU_OPEN, "Open in nextar", cat(gui_q.as_str(), " \"%1\""), gui_icon.as_str());
    push_menu(acts, MENU_REPAIR, "Repair with .nvol…", cat(gui_q.as_str(), " --run repair \"%1\""), gui_icon.as_str());
    assert(acts_view(acts@) =~= start + menu_plan(gui@));
}

fn push_assoc(acts: &mut Vec<Act>, gui: &str)
    ensures
        acts_view(final(acts)@) == acts_view(old(acts)@) + assoc_plan(gui@),
{
    let ghost start = acts_view(acts@);
    let gui_q = quote(gui);
    proof {
        reveal_strlit("");
        assert(""@ =~= Seq::<char>::empty());
    }
    push_act(acts, set_value(Root::Classes, copy_str(".next"), "", copy_str(PROGID)));
    push_act(acts, set_value(Root::Classes, copy_str(PROGID), "", copy_str("nextar archive")));
    push_act(acts, set_value(Root::Classes, cat(PROGID, "\\shell\\open\\command"), "", cat(gui_q.as_str(), " \"%1\"")));
    push_act(acts, set_value(Root::Classes, cat(PROGID, "\\DefaultIcon"), "", cat(gui_q.as_str(), ",0")));
    assert(acts_view(acts@) =~= start + assoc_plan(gui@));
}

fn push_uninstall_entry(acts: &mut Vec<Act>, prefix: &str, est: u32)
    ensures
        acts_view(final(acts)@) == acts_view(old(acts)@) + uninstall_entry_plan(prefix@, est),
{
    let ghost start = acts_view(acts@);
    let exe_q = quote(join(prefix, "nextar.exe").as_str());
    let setup_q = quote(join(prefix, "nextar-setup.exe").as_str());
    push_act(acts, Act::SetDword { root: Root::Uninstall, path: copy_str("nextar"), name: copy_str("EstimatedSize"), value: est });
    push_act(acts, set_value(Root::Uninstall, copy_str("nextar"), "DisplayName", copy_str("nextar")));
    push_act(acts, set_value(Root::Uninstall, copy_str("nextar"), "DisplayVersion", copy_str(VERSION)));
    push_act(acts, set_value(Root::Uninstall, copy_str("nextar"), "Publisher", copy_str("nextar")));
    push_act(acts, set_value(Root::Uninstall, copy_str("nextar"), "InstallLocation", copy_str(prefix)));
    push_act(acts, set_value(Root::Uninstall, copy_str("nextar"), "DisplayIcon", cat(exe_q.as_str(), ",0")));
    push_act(acts, set_value(Root::Uninstall, copy_str("nextar"), "UninstallString", cat(setup_q.as_str(), " --uninstall")));
    assert(acts_view(acts@) =~= start + uninstall_entry_plan(prefix@, est));
}

fn push_shortcuts(acts: &mut Vec<Act>, opts: &InstallOpts, gui: &str, start_lnk: String, desktop_lnk: String, sendto_dir: &str)
    ensures
        acts_view(final(acts)@) == acts_view(old(acts)@) + shortcut_plan(*opts, gui@, start_lnk@, desktop_lnk@, sendto_dir@),
{
    let ghost start = acts_view(acts@);
    let ghost sl = start_lnk@;
    let ghost dl = desktop_lnk@;
    proof {
        reveal_strlit("");
        assert(""@ =~= Seq::<char>::empty());
    }
    if opts.start_menu {
        push_act(acts, Act::Shortcut { lnk: start_lnk, target: copy_str(gui), icon: copy_str(gui), args: String::new() });
    }
    let ghost mid1 = acts_view(acts@);
    if opts.desktop {
        push_act(acts, Act::Shortcut { lnk: desktop_lnk, target: copy_str(gui), icon: copy_str(gui), args: String::new() });
    }
    let ghost mid2 = acts_view(acts@);
    if opts.context_menu {
        push_act(
            acts,
            Act::Shortcut {
                lnk: join(sendto_dir, "Compress to .next.lnk"),
                target: copy_str(gui),
                icon: copy_str(gui),
                args: copy_str("--run create"),
            },
        );
    }
    assert(acts_view(acts@) =~= start + shortcut_plan(*opts, gui@, sl, dl, sendto_dir@));
}

/// The install plan for installing into `prefix`.
pub fn install_actions(prefix: &str, opts: &InstallOpts, env: InstallEnv) -> (r: Vec<Act>)
    requires
        env.cli_exe@.len() + env.gui_exe@.len() <= u32::MAX,
    ensures
        acts_view(r@) == install_plan(prefix@, *opts, env),
{
    let ghost env0 = env;
    let exe = join(prefix, "nextar.exe");
    let gui = join(prefix, "nextar-gui.exe");
    let setup = join(prefix, "nextar-setup.exe");
    let InstallEnv { self_copy, assoc_taken, start_lnk, desktop_lnk, sendto_dir, cli_exe, gui_exe } = env;
    let est: u32 = ((cli_exe.len() + gui_exe.len()) / 1024) as u32;
    let mut acts: Vec<Act> = Vec::new();
    push_act(&mut acts, Act::File { path: exe, data: cli_exe });
    push_act(&mut acts, Act::File { path: copy_str(gui.as_str()), data: gui_exe });
    match self_copy {
        Some((sp, data)) => {
            if !str_eq(sp.as_str(), setup.as_str()) {
                push_act(&mut acts, Act::File { path: setup, data });
            }
        },
        None => {},
    }
    assert(acts_view(acts@) =~= payload_plan(prefix@, env0));
    let ghost p1 = acts_view(acts@);
    if opts.context_menu {
        push_menus(&mut acts, gui.as_str());
    }
    let ghost p2 = acts_view(acts@);
    if opts.association && !assoc_taken {
        push_assoc(&mut acts, gui.as_str());
    }
    let ghost p3 = acts_view(acts@);
    push_shortcuts(&mut acts, opts, gui.as_str(), start_lnk, desktop_lnk, sendto_dir.as_str());
    let ghost p4 = acts_view(acts@);
    push_uninstall_entry(&mut acts, prefix, est);
    proof {
        assert(p2 == p1 + (if opts.context_menu { menu_plan(gui@) } else { Seq::empty() }));
        assert(p3 == p2 + (if opts.association && !env0.assoc_taken { assoc_plan(gui@) } else { Seq::empty() }));
        assert(acts_view(acts@) =~= install_plan(prefix@, *opts, env0));
    }
    acts
}

/// The uninstall plan, in order: the context-menu verbs, the `.next`
/// association when it still points at the desktop app, the program id,
/// the uninstall entry, the shortcuts, and the two executables (the running
/// installer removes itself and the folder afterwards).
pub open spec fn uninstall_plan(prefix: Seq<char>, assoc_ours: bool, start_lnk: Seq<char>, desktop_lnk: Seq<char>, sendto_dir: Seq<char>) -> Seq<ActSpec> {
    seq![
        ActSpec::Delete(Root::Classes, MENU_COMPRESS@),
        ActSpec::Delete(Root::Classes, MENU_EMAIL@),
        ActSpec::Delete(Root::Classes, MENU_COMPRESS_DIR@),
        ActSpec::Delete(Root::Classes, MENU_EMAIL_DIR@),
        ActSpec::Delete(Root::Classes, MENU_EXTRACT@),
        ActSpec::Delete(Root::Classes, MENU_EXTRACT_INTO@),
        ActSpec::Delete(Root::Classes, MENU_OPEN@),
        ActSpec::Delete(Root::Classes, MENU_REPAIR@),
    ] + (if assoc_ours {
        seq![ActSpec::Delete(Root::Classes, ".next"@)]
    } else {
        Seq::empty()
    }) + seq![
        ActSpec::Delete(Root::Classes, PROGID@),
        ActSpec::Delete(Root::Uninstall, "nextar"@),
        ActSpec::RemoveFile(start_lnk),
        ActSpec::RemoveFile(desktop_lnk),
        ActSpec::RemoveFile(join_spec(sendto_dir, "Compress to .next.lnk"@)),
        ActSpec::RemoveFile(join_spec(prefix, "nextar.exe"@)),
        ActSpec::RemoveFile(join_spec(prefix, "nextar-gui.exe"@)),
    ]
}

fn delete_key(acts: &mut Vec<Act>, root: Root, path: &str)
    ensures
        acts_view(final(acts)@) == acts_view(old(acts)@).push(ActSpec::Delete(root, path@)),
{
    push_act(acts, Act::Delete { root, path: copy_str(path) });
}

/// The uninstall plan for the installation in `prefix`; `assoc_ours` tells
/// whether `.next` still opens with the desktop app.
pub fn uninstall_actions(prefix: &str, assoc_ours: bool, start_lnk: &str, desktop_lnk: &str, sendto_dir: &str) -> (r: Vec<Act>)
    ensures
        acts_view(r@) == uninstall_plan(prefix@, assoc_ours, start_lnk@, desktop_lnk@, sendto_dir@),
{
    let mut acts: Vec<Act> = Vec::new();
    delete_key(&mut acts, Root::Classes, MENU_COMPRESS);
    delete_key(&mut acts, Root::Classes, MENU_EMAIL);
    delete_key(&mut acts, Root::Classes, MENU_COMPRESS_DIR);
    delete_key(&mut acts, Root::Classes, MENU_EMAIL_DIR);
    delete_key(&mut acts, Root::Classes, MENU_EXTRACT);
    delete_key(&mut acts, Root::Classes, MENU_EXTRACT_INTO);
    delete_key(&mut acts, Root::Classes, MENU_OPEN);
    delete_key(&mut acts, Root::Classes, MENU_REPAIR);
    if assoc_ours {
        delete_key(&mut acts, Root::Classes, ".next");
    }
    delete_key(&mut acts, Root::Classes, PROGID);
    delete_key(&mut acts, Root::Uninstall, "nextar");
    push_act(&mut acts, Act::RemoveFile { path: copy_str(start_lnk) });
    push_act(&mut acts, Act::RemoveFile { path: copy_str(desktop_lnk) });
    push_act(&mut acts, Act::RemoveFile { path: join(sendto_dir, "Compress to .next.lnk") });
    push_act(&mut acts, Act::RemoveFile { path: join(prefix, "nextar.exe") });
    push_act(&mut acts, Act::RemoveFile { path: join(prefix, "nextar-gui.exe") });
    assert(acts_view(acts@) =~= uninstall_plan(prefix@, assoc_ours, start_lnk@, desktop_lnk@, sendto_dir@));
    acts
}

// ─────────────────────────── uninstall undoes install ───────────────────────────

/// `key` is the registry key `path` or one of its ancestors.
pub open spec fn key_covers(key: Seq<char>, path: Seq<char>) -> bool {
    path == key || (path.len() > key.len() && path.take(key.len() as int) == key && path[key.len() as int] == '\\')
}

/// Uninstall action `u` undoes install action `a`: it deletes the value's
/// key or an ancestor under the same root, or removes the file or shortcut.
pub open spec fn undoes(u: ActSpec, a: ActSpec) -> bool {
    match a {
        ActSpec::SetString(root, path, _, _) => u matches ActSpec::Delete(r, k) && r == root && key_covers(k, path),
        ActSpec::SetDword(root, path, _, _) => u matches ActSpec::Delete(r, k) && r == root && key_covers(k, path),
        ActSpec::Shortcut(lnk, _, _, _) => u == ActSpec::RemoveFile(lnk),
        ActSpec::File(path, _) => u == ActSpec::RemoveFile(path),
        _ => false,
    }
}

/// Some action of `plan` undoes `a`.
pub open spec fn undone_in(plan: Seq<ActSpec>, a: ActSpec) -> bool {
    exists|i: int| 0 <= i < plan.len() && #[trigger] undoes(plan[i], a)
}

/// Every action of `part` is undone by `plan`, but for writing the
/// installer's own executable (the running installer removes it, with its
/// folder, after the plan ran).
pub open spec fn all_undone(part: Seq<ActSpec>, plan: Seq<ActSpec>, setup: Seq<char>) -> bool {
    forall|j: int| 0 <= j < part.len() ==> (#[trigger] part[j] matches ActSpec::File(p, _) && p == setup) || undone_in(plan, part[j])
}

proof fn lemma_all_undone_append(a: Seq<ActSpec>, b: Seq<ActSpec>, plan: Seq<ActSpec>, setup: Seq<char>)
    requires
        all_undone(a, plan, setup),
        all_undone(b, plan, setup),
    ensures
        all_undone(a + b, plan, setup),
{
    assert forall|j: int| 0 <= j < (a + b).len() implies (#[trigger] (a + b)[j] matches ActSpec::File(p, _) && p == setup)
        || undone_in(plan, (a + b)[j]) by {
        if j < a.len() {
            assert((a + b)[j] == a[j]);
        } else {
            assert((a + b)[j] == b[j - a.len()]);
        }
    }
}

proof fn lemma_child_key(key: Seq<char>, sub: Seq<char>)
    requires
        sub.len() > 0,
        sub[0] == '\\',
    ensures
        key_covers(key, key + sub),
{
    assert((key + sub).take(key.len() as int) =~= key);
    assert((key + sub)[key.len() as int] == sub[0]);
}

proof fn lemma_menu_undone(menu: Seq<char>, label: Seq<char>, cmd: Seq<char>, icon: Seq<char>, plan: Seq<ActSpec>, k: int, setup: Seq<char>)
    requires
        0 <= k < plan.len(),
        plan[k] == ActSpec::Delete(Root::Classes, menu),
    ensures
        all_undone(menu_entries(menu, label, cmd, icon), plan, setup),
{
    reveal_strlit("\\command");
    reveal_strlit("\\Icon");
    lemma_child_key(menu, "\\command"@);
    lemma_child_key(menu, "\\Icon"@);
    let part = menu_entries(menu, label, cmd, icon);
    assert forall|j: int| 0 <= j < part.len() implies (#[trigger] part[j] matches ActSpec::File(p, _) && p == setup)
        || undone_in(plan, part[j]) by {
        assert(undoes(plan[k], part[j]));
    }
}

/// Uninstalling undoes installing: with the same shortcut locations, and
/// while `.next` still opens with the desktop app, every registry value the
/// install plan sets lies under a key the uninstall plan deletes, and every
/// file and shortcut it writes is removed, but for the installer's own
/// executable, which the running installer removes with its folder.
pub proof fn lemma_uninstall_undoes_install(prefix: Seq<char>, opts: InstallOpts, env: InstallEnv)
    ensures
        all_undone(
            install_plan(prefix, opts, env),
            uninstall_plan(prefix, true, env.start_lnk@, env.desktop_lnk@, env.sendto_dir@),
            join_spec(prefix, "nextar-setup.exe"@),
        ),
{
    let up = uninstall_plan(prefix, true, env.start_lnk@, env.desktop_lnk@, env.sendto_dir@);
    let setup = join_spec(prefix, "nextar-setup.exe"@);
    let gui = join_spec(prefix, "nextar-gui.exe"@);
    assert(up.len() == 16);
    assert(up[0] == ActSpec::Delete(Root::Classes, MENU_COMPRESS@));
    assert(up[1] == ActSpec::Delete(Root::Classes, MENU_EMAIL@));
    assert(up[2] == ActSpec::Delete(Root::Classes, MENU_COMPRESS_DIR@));
    assert(up[3] == ActSpec::Delete(Root::Classes, MENU_EMAIL_DIR@));
    assert(up[4] == ActSpec::Delete(Root::Classes, MENU_EXTRACT@));
    assert(up[5] == ActSpec::Delete(Root::Classes, MENU_EXTRACT_INTO@));
    assert(up[6] == ActSpec::Delete(Root::Classes, MENU_OPEN@));
    assert(up[7] == ActSpec::Delete(Root::Classes, MENU_REPAIR@));
    assert(up[8] == ActSpec::Delete(Root::Classes, ".next"@));
    assert(up[9] == ActSpec::Delete(Root::Classes, PROGID@));
    assert(up[10] == ActSpec::Delete(Root::Uninstall, "nextar"@));
    assert(up[11] == ActSpec::RemoveFile(env.start_lnk@));
    assert(up[12] == ActSpec::RemoveFile(env.desktop_lnk@));
    assert(up[13] == ActSpec::RemoveFile(join_spec(env.sendto_dir@, "Compress to .next.lnk"@)));
    assert(up[14] == ActSpec::RemoveFile(join_spec(prefix, "nextar.exe"@)));
    assert(up[15] == ActSpec::RemoveFile(gui));
    // the executables
    let pay = payload_plan(prefix, env);
    assert forall|j: int| 0 <= j < pay.len() implies (#[trigger] pay[j] matches ActSpec::File(p, _) && p == setup) || undone_in(
        up,
        pay[j],
    ) by {
        if j == 0 {
            assert(undoes(up[14], pay[j]));
        } else if j == 1 {
            assert(undoes(up[15], pay[j]));
        }
    }
    // the context menus
    let q = quoted(gui);
    let ic = icon_of(q);
    lemma_menu_undone(MENU_COMPRESS@, "Compress to .next"@, q + " --run create \"%1\""@, ic, up, 0, setup);
    lemma_menu_undone(MENU_EXTRACT@, "Extract here"@, q + " --run extract --here \"%1\""@, ic, up, 4, setup);
    lemma_menu_undone(MENU_EXTRACT_INTO@, "Extract .next… here"@, q + " --run extract-into \"%1\""@, ic, up, 5, setup);
    lemma_menu_undone(MENU_COMPRESS_DIR@, "Compress to .next"@, q + " --run create \"%1\""@, ic, up, 2, setup);
    lemma_menu_undone(MENU_EMAIL_DIR@, "Compress to .next and email"@, q + " --run create-email \"%1\""@, ic, up, 3, setup);
    lemma_menu_undone(MENU_EMAIL@, "Compress to .next and email"@, q + " --run create-email \"%1\""@, ic, up, 1, setup);
    lemma_menu_undone(MENU_OPEN@, "Open in nextar"@, q + " \"%1\""@, ic, up, 6, setup);
    lemma_menu_undone(MENU_REPAIR@, "Repair with .nvol…"@, q + " --run repair \"%1\""@, ic, up, 7, setup);
    let e: Seq<ActSpec> = Seq::empty();
    assert(all_undone(e, up, setup));
    let m1 = menu_entries(MENU_COMPRESS@, "Compress to .next"@, q + " --run create \"%1\""@, ic);
    let m2 = menu_entries(MENU_EXTRACT@, "Extract here"@, q + " --run extract --here \"%1\""@, ic);
    let m3 = menu_entries(MENU_EXTRACT_INTO@, "Extract .next… here"@, q + " --run extract-into \"%1\""@, ic);
    let m4 = menu_entries(MENU_COMPRESS_DIR@, "Compress to .next"@, q + " --run create \"%1\""@, ic);
    let m5 = menu_entries(MENU_EMAIL_DIR@, "Compress to .next and email"@, q + " --run create-email \"%1\""@, ic);
    let m6 = menu_entries(MENU_EMAIL@, "Compress to .next and email"@, q + " --run create-email \"%1\""@, ic);
    let m7 = menu_entries(MENU_OPEN@, "Open in nextar"@, q + " \"%1\""@, ic);
    let m8 = menu_entries(MENU_REPAIR@, "Repair with .nvol…"@, q + " --run repair \"%1\""@, ic);
    lemma_all_undone_append(e, m1, up, setup);
    lemma_all_undone_append(e + m1, m2, up, setup);
    lemma_all_undone_append(e + m1 + m2, m3, up, setup);
    lemma_all_undone_append(e + m1 + m2 + m3, m4, up, setup);
    lemma_all_undone_append(e + m1 + m2 + m3 + m4, m5, up, setup);
    lemma_all_undone_append(e + m1 + m2 + m3 + m4 + m5, m6, up, setup);
    lemma_all_undone_append(e + m1 + m2 + m3 + m4 + m5 + m6, m7, up, setup);
    lemma_all_undone_append(e + m1 + m2 + m3 + m4 + m5 + m6 + m7, m8, up, setup);
    assert(menu_plan(gui) == e + m1 + m2 + m3 + m4 + m5 + m6 + m7 + m8);
    let menus = if opts.context_menu { menu_plan(gui) } else { e };
    assert(all_undone(menus, up, setup));
    // the association
    let assoc = assoc_plan(gui);
    reveal_strlit("\\shell\\open\\command");
    reveal_strlit("\\DefaultIcon");
    lemma_child_key(PROGID@, "\\shell\\open\\command"@);
    lemma_child_key(PROGID@, "\\DefaultIcon"@);
    assert forall|j: int| 0 <= j < assoc.len() implies (#[trigger] assoc[j] matches ActSpec::File(p, _) && p == setup)
        || undone_in(up, assoc[j]) by {
        if j == 0 {
            assert(undoes(up[8], assoc[j]));
        } else {
            assert(undoes(up[9], assoc[j]));
        }
    }
    let assoc_part = if opts.association && !env.assoc_taken { assoc } else { e };
    assert(all_undone(assoc_part, up, setup));
    // the shortcuts
    let sc = shortcut_plan(opts, gui, env.start_lnk@, env.desktop_lnk@, env.sendto_dir@);
    assert forall|j: int| 0 <= j < sc.len() implies (#[trigger] sc[j] matches ActSpec::File(p, _) && p == setup) || undone_in(
        up,
        sc[j],
    ) by {
        if sc[j] == ActSpec::Shortcut(env.start_lnk@, gui, gui, Seq::empty()) {
            assert(undoes(up[11], sc[j]));
        } else if sc[j] == ActSpec::Shortcut(env.desktop_lnk@, gui, gui, Seq::empty()) {
            assert(undoes(up[12], sc[j]));
        } else {
            assert(undoes(up[13], sc[j]));
        }
    }
    // the uninstall entry
    let est = ((env.cli_exe@.len() + env.gui_exe@.len()) / 1024) as u32;
    let ue = uninstall_entry_plan(prefix, est);
    assert forall|j: int| 0 <= j < ue.len() implies (#[trigger] ue[j] matches ActSpec::File(p, _) && p == setup) || undone_in(
        up,
        ue[j],
    ) by {
        assert(undoes(up[10], ue[j]));
    }
    lemma_all_undone_append(pay, menus, up, setup);
    lemma_all_undone_append(pay + menus, assoc_part, up, setup);
    lemma_all_undone_append(pay + menus + assoc_part, sc, up, setup);
    lemma_all_undone_append(pay + menus + assoc_part + sc, ue, up, setup);
}

// ─────────────────────────── wizard ───────────────────────────

/// The pages of the setup wizard.
#[derive(Clone, Copy, Debug, PartialEq, Eq, Structural)]
pub enum Page {
    Welcome,
    Destination,
    Options,
    Installing,
    Uninstall,
}

/// Whether the wizard installs or removes nextar.
#[derive(Clone, Copy, Debug, PartialEq, Eq, Structural)]
pub enum Mode {
    Install,
    Uninstall,
}

/// A button the user pressed: "Install nextar" on the welcome page,
/// Back, Next, Install, Uninstall, Cancel, and Finish or Close once the
/// work is done.
#[derive(Clone, Copy, Debug, PartialEq, Eq, Structural)]
pub enum WizardEvent {
    Start,
    Back,
    Next,
    Install,
    Uninstall,
    Cancel,
    Finish,
    Close,
}

/// What the wizard does besides showing a page: nothing, start the
/// install or uninstall work, close its window, or launch the installed
/// GUI at the given path and then close.
#[derive(Debug)]
pub enum WizardAction {
    Nothing,
    Begin,
    Close,
    LaunchThenClose(String),
}

/// The page the wizard opens on.
pub fn first_page(mode: Mode) -> (r: Page)
    ensures
        r == (if mode == Mode::Uninstall { Page::Uninstall } else { Page::Welcome }),
{
    match mode {
        Mode::Uninstall => Page::Uninstall,
        Mode::Install => Page::Welcome,
    }
}

/// The wizard's reaction to a button: the page it shows next and what it
/// does. `prefix` is the destination field, `launch` the "Launch
/// nextar-gui when finished" tick. A button a page does not offer changes
/// nothing.
pub fn wizard_step(mode: Mode, page: Page, event: WizardEvent, prefix: &str, launch: bool) -> (r: (
    Page,
    WizardAction,
))
    ensures
        match (page, event) {
            (Page::Welcome, WizardEvent::Start) => r.0 == Page::Destination && r.1 is Nothing,
            (Page::Destination, WizardEvent::Back) => r.0 == Page::Welcome && r.1 is Nothing,
            (Page::Destination, WizardEvent::Next) => r.1 is Nothing && r.0 == (if crate::units::trim(
                prefix@,
            ).len() == 0 {
                Page::Destination
            } else {
                Page::Options
            }),
            (Page::Options, WizardEvent::Back) => r.0 == Page::Destination && r.1 is Nothing,
            (Page::Options, WizardEvent::Install) => r.0 == Page::Installing && r.1 is Begin,
            (Page::Uninstall, WizardEvent::Uninstall) => r.0 == Page::Installing && r.1 is Begin,
            (Page::Uninstall, WizardEvent::Cancel) => r.0 == Page::Uninstall && r.1 is Close,
            (Page::Installing, WizardEvent::Close) => r.0 == Page::Installing && r.1 is Close,
            (Page::Installing, WizardEvent::Finish) => r.0 == Page::Installing && if mode == Mode::Install
                && launch {
                r.1 matches WizardAction::LaunchThenClose(g) && g@ == join_spec(
                    crate::units::trim(prefix@),
                    "nextar-gui.exe"@,
                )
            } else {
                r.1 is Close
            },
            _ => r.0 == page && r.1 is Nothing,
        },
{
    match (page, event) {
        (Page::Welcome, WizardEvent::Start) => (Page::Destination, WizardAction::Nothing),
        (Page::Destination, WizardEvent::Back) => (Page::Welcome, WizardAction::Nothing),
        (Page::Destination, WizardEvent::Next) => {
            let t = crate::units::trimmed(prefix);
            if t.unicode_len() == 0 {
                (Page::Destination, WizardAction::Nothing)
            } else {
                (Page::Options, WizardAction::Nothing)
            }
        },
        (Page::Options, WizardEvent::Back) => (Page::Destination, WizardAction::Nothing),
        (Page::Options, WizardEvent::Install) => (Page::Installing, WizardAction::Begin),
        (Page::Uninstall, WizardEvent::Uninstall) => (Page::Installing, WizardAction::Begin),
        (Page::Uninstall, WizardEvent::Cancel) => (Page::Uninstall, WizardAction::Close),
        (Page::Installing, WizardEvent::Close) => (Page::Installing, WizardAction::Close),
        (Page::Installing, WizardEvent::Finish) => {
            if mode == Mode::Install && launch {
                let t = crate::units::trimmed(prefix);
                (Page::Installing, WizardAction::LaunchThenClose(join(t.as_str(), "nextar-gui.exe")))
            } else {
                (Page::Installing, WizardAction::Close)
            }
        },
        _ => (page, WizardAction::Nothing),
    }
}

/// How many of the planned actions write a file.
pub open spec fn file_count_spec(v: Seq<ActSpec>) -> nat
    decreases v.len(),
{
    if v.len() == 0 {
        0
    } else {
        file_count_spec(v.drop_last()) + if v.last() is File {
            1nat
        } else {
            0nat
        }
    }
}

/// How many of `acts` write a file (reported when the install is done).
pub fn file_count(acts: &[Act]) -> (r: usize)
    ensures
        r == file_count_spec(acts_view(acts@)),
{
    let mut n: usize = 0;
    let mut i: usize = 0;
    while i < acts.len()
        invariant
            i <= acts@.len(),
            n == file_count_spec(acts_view(acts@.take(i as int))),
            n <= i,
        decreases acts@.len() - i,
    {
        assert(acts_view(acts@.take(i as int + 1)).drop_last() =~= acts_view(acts@.take(i as int)));
        assert(acts_view(acts@.take(i as int + 1)).last() == acts@[i as int]@);
        if let Act::File { .. } = &acts[i] {
            n = n + 1;
        }
        i = i + 1;
    }
    assert(acts@.take(acts@.len() as int) =~= acts@);
    n
}

// ─────────────────────────── command line ───────────────────────────

/// Whether `a` is among the arguments.
pub open spec fn has_arg(args: Seq<Seq<char>>, a: Seq<char>) -> bool {
    exists|i: int| 0 <= i < args.len() && #[trigger] args[i] == a
}

fn has_arg_exec(args: &[String], a: &str) -> (r: bool)
    ensures
        r == has_arg(strs(args@), a@),
{
    let ghost v = strs(args@);
    let mut i: usize = 0;
    while i < args.len()
        invariant
            i <= args@.len(),
            v == strs(args@),
            forall|j: int| 0 <= j < i ==> #[trigger] v[j] != a@,
        decreases args@.len() - i,
    {
        if str_eq(args[i].as_str(), a) {
            assert(v[i as int] == a@);
            return true;
        }
        i = i + 1;
    }
    false
}

/// `s` with every `/` turned into `\`.
pub open spec fn backslashed(s: Seq<char>) -> Seq<char> {
    Seq::new(s.len(), |i: int| if s[i] == '/' { '\\' } else { s[i] })
}

fn backslashed_exec(s: &str) -> (r: String)
    ensures
        r@ == backslashed(s@),
{
    let cs = crate::text::chars_of(s);
    let mut out: Vec<char> = Vec::new();
    let mut i: usize = 0;
    while i < cs.len()
        invariant
            i <= cs@.len(),
            cs@ == s@,
            out@ == backslashed(s@).take(i as int),
        decreases cs@.len() - i,
    {
        out.push(if cs[i] == '/' { '\\' } else { cs[i] });
        i = i + 1;
        assert(out@ =~= backslashed(s@).take(i as int));
    }
    assert(out@ =~= backslashed(s@));
    crate::text::string_from_chars(out.as_slice())
}

/// What the installer was asked to do.
#[derive(Debug)]
pub enum SetupCommand {
    /// Print the version.
    Version,
    /// Print the usage.
    Help,
    /// Install or uninstall without the wizard; `prefix` is the
    /// `--prefix` value with `/` turned into `\`, if one was given.
    Console { uninstall: bool, dry: bool, quiet: bool, prefix: Option<String> },
    /// Open the wizard.
    Wizard(Mode),
}

/// The installer's reading of its arguments: version and help win; any of
/// `--dry-run`, `--quiet` / `-q` or `--prefix` keeps it headless; else the
/// wizard opens, in uninstall mode with `--uninstall`.
pub fn setup_command(args: &[String]) -> (r: SetupCommand)
    ensures
        ({
            let a = strs(args@);
            let uninstall = has_arg(a, "--uninstall"@);
            let dry = has_arg(a, "--dry-run"@);
            let quiet = has_arg(a, "--quiet"@) || has_arg(a, "-q"@);
            if has_arg(a, "--version"@) || has_arg(a, "-V"@) {
                r is Version
            } else if has_arg(a, "--help"@) || has_arg(a, "-h"@) {
                r is Help
            } else if dry || quiet || has_arg(a, "--prefix"@) {
                r matches SetupCommand::Console { uninstall: u, dry: d, quiet: q, prefix: p } && u == uninstall
                    && d == dry && q == quiet && match arg_value_spec(a, "--prefix"@) {
                    Some(v) => p matches Some(pv) && pv@ == backslashed(v),
                    None => p is None,
                }
            } else {
                r matches SetupCommand::Wizard(m) && m == (if uninstall {
                    Mode::Uninstall
                } else {
                    Mode::Install
                })
            }
        }),
{
    if has_arg_exec(args, "--version") || has_arg_exec(args, "-V") {
        return SetupCommand::Version;
    }
    if has_arg_exec(args, "--help") || has_arg_exec(args, "-h") {
        return SetupCommand::Help;
    }
    let dry = has_arg_exec(args, "--dry-run");
    let quiet = has_arg_exec(args, "--quiet") || has_arg_exec(args, "-q");
    let uninstall = has_arg_exec(args, "--uninstall");
    if dry || quiet || has_arg_exec(args, "--prefix") {
        let prefix = match arg_value(args, "--prefix") {
            Some(v) => Some(backslashed_exec(v.as_str())),
            None => None,
        };
        return SetupCommand::Console { uninstall, dry, quiet, prefix };
    }
    SetupCommand::Wizard(if uninstall { Mode::Uninstall } else { Mode::Install })
}

/// The install prefix of a headless run: the given one, else `default`;
/// an empty prefix is refused.
pub fn install_prefix(given: Option<String>, default: String) -> (r: Result<String, String>)
    ensures
        ({
            let p = match given {
                Some(g) => g@,
                None => default@,
            };
            match r {
                Ok(v) => p.len() > 0 && v@ == p,
                Err(m) => p.len() == 0 && m@ == "empty install prefix"@,
            }
        }),
{
    let p = match given {
        Some(g) => g,
        None => default,
    };
    if p.unicode_len() == 0 {
        return Err(copy_str("empty install prefix"));
    }
    Ok(p)
}

// ─────────────────────────── reports ───────────────────────────

/// `s` inside a single-quoted PowerShell literal: each `'` doubled.
pub open spec fn ps_escape(s: Seq<char>) -> Seq<char>
    decreases s.len(),
{
    if s.len() == 0 {
        Seq::empty()
    } else {
        ps_escape(s.drop_last()) + if s.last() == '\'' {
            seq!['\'', '\'']
        } else {
            seq![s.last()]
        }
    }
}

/// The text a single-quoted PowerShell literal body stands for, where
/// `''` is one quote; `None` when a quote stands alone (it would end the
/// literal).
pub open spec fn ps_unescape(q: Seq<char>) -> Option<Seq<char>>
    decreases q.len(),
{
    if q.len() == 0 {
        Some(Seq::empty())
    } else if q.last() == '\'' {
        if q.len() >= 2 && q[q.len() - 2] == '\'' {
            match ps_unescape(q.subrange(0, q.len() - 2)) {
                Some(p) => Some(p.push('\'')),
                None => None,
            }
        } else {
            None
        }
    } else {
        match ps_unescape(q.drop_last()) {
            Some(p) => Some(p.push(q.last())),
            None => None,
        }
    }
}

/// The folder named in the cleanup command reads back exactly: escaping
/// the path and reading the literal gives the path again, whatever quotes
/// it holds.
pub proof fn lemma_ps_escape_roundtrip(s: Seq<char>)
    ensures
        ps_unescape(ps_escape(s)) == Some(s),
    decreases s.len(),
{
    if s.len() > 0 {
        lemma_ps_escape_roundtrip(s.drop_last());
        let e = ps_escape(s.drop_last());
        let q = ps_escape(s);
        if s.last() == '\'' {
            assert(q.subrange(0, q.len() - 2) =~= e);
        } else {
            assert(q.drop_last() =~= e);
        }
        assert(s.drop_last().push(s.last()) =~= s);
    }
}

/// The detached PowerShell command that removes the install folder once
/// the running uninstaller has exited.
pub open spec fn cleanup_script_spec(prefix: Seq<char>) -> Seq<char> {
    "Start-Sleep -Milliseconds 1500; Remove-Item -LiteralPath '"@ + ps_escape(prefix)
        + "' -Recurse -Force -ErrorAction SilentlyContinue"@
}

/// The detached PowerShell command that removes the install folder once
/// the running uninstaller has exited.
pub fn cleanup_script(prefix: &str) -> (r: String)
    ensures
        r@ == cleanup_script_spec(prefix@),
{
    let mut r = copy_str("Start-Sleep -Milliseconds 1500; Remove-Item -LiteralPath '");
    push_escaped(&mut r, prefix);
    push_str(&mut r, "' -Recurse -Force -ErrorAction SilentlyContinue");
    r
}

/// Appends `s` escaped for a single-quoted PowerShell literal.
fn push_escaped(r: &mut String, s: &str)
    ensures
        final(r)@ == old(r)@ + ps_escape(s@),
{
    let cs = crate::text::chars_of(s);
    let ghost head = r@;
    let mut i: usize = 0;
    while i < cs.len()
        invariant
            i <= cs@.len(),
            cs@ == s@,
            r@ == head + ps_escape(s@.take(i as int)),
        decreases cs@.len() - i,
    {
        assert(s@.take(i as int + 1).drop_last() =~= s@.take(i as int));
        if cs[i] == '\'' {
            crate::text::push_char(r, '\'');
            crate::text::push_char(r, '\'');
        } else {
            crate::text::push_char(r, cs[i]);
        }
        i = i + 1;
        assert(r@ =~= head + ps_escape(s@.take(i as int)));
    }
    assert(s@.take(cs@.len() as int) =~= s@);
}

/// The PowerShell command that creates a `.lnk` shortcut at `lnk` to
/// `target` (working in the target's folder) with `icon` and fixed
/// arguments `args`, every value single-quoted.
pub open spec fn shortcut_script_spec(lnk: Seq<char>, target: Seq<char>, icon: Seq<char>, args: Seq<char>) -> Seq<char> {
    let dir = if crate::paths::has_parent(target, true) {
        crate::paths::parent_part(target, true)
    } else {
        Seq::empty()
    };
    "$s=(New-Object -ComObject WScript.Shell).CreateShortcut('"@ + ps_escape(lnk) + "');$s.TargetPath='"@
        + ps_escape(target) + "';$s.IconLocation='"@ + ps_escape(icon) + ",0';$s.WorkingDirectory='"@
        + ps_escape(dir) + "';$s.Arguments='"@ + ps_escape(args) + "';$s.Save()"@
}

/// The PowerShell command that creates a `.lnk` shortcut.
pub fn shortcut_script(lnk: &str, target: &str, icon: &str, args: &str) -> (r: String)
    ensures
        r@ == shortcut_script_spec(lnk@, target@, icon@, args@),
{
    let (dir, _) = crate::paths::split_path(target, true);
    let mut r = copy_str("$s=(New-Object -ComObject WScript.Shell).CreateShortcut('");
    push_escaped(&mut r, lnk);
    push_str(&mut r, "');$s.TargetPath='");
    push_escaped(&mut r, target);
    push_str(&mut r, "';$s.IconLocation='");
    push_escaped(&mut r, icon);
    push_str(&mut r, ",0';$s.WorkingDirectory='");
    push_escaped(&mut r, dir.as_str());
    push_str(&mut r, "';$s.Arguments='");
    push_escaped(&mut r, args);
    push_str(&mut r, "';$s.Save()");
    r
}

/// What a headless install reports once it is done, line by line: the
/// integrations it set up, then how to remove it again.
pub open spec fn install_report_spec(opts: InstallOpts, prefix: Seq<char>) -> Seq<Seq<char>> {
    seq![""@, "  ✓ nextar.exe + nextar-gui.exe + nextar-setup.exe"@] + (if opts.context_menu {
        seq![
            "  ✓ right-click any file/folder → “Compress to .next” / “Compress to .next and email”"@,
            "  ✓ right-click a folder → “Extract .next… here”"@,
            "  ✓ right-click a .next archive → “Open in nextar” / “Extract here” / “Repair with .nvol…”"@,
            "  ✓ Send To → “Compress to .next” (multi-select)"@,
        ]
    } else {
        Seq::empty()
    }) + (if opts.association {
        seq!["  ✓ double-click a .next archive → opens in nextar-gui"@]
    } else {
        Seq::empty()
    }) + seq![
        "  ✓ uninstall entry registered (Settings → Apps → nextar)"@,
        ""@,
        "done — right-click anything in Explorer to use nextar."@,
        "remove it anytime with: \""@ + join_spec(prefix, "nextar-setup.exe"@) + "\" --uninstall"@,
    ]
}

fn push_line(r: &mut Vec<String>, line: &str)
    ensures
        strs(final(r)@) == strs(old(r)@).push(line@),
{
    let ghost before = r@;
    let l = copy_str(line);
    r.push(l);
    proof {
        crate::text::lemma_strs_push(before, l);
    }
}

/// What a headless install reports once it is done, line by line.
pub fn install_report(opts: &InstallOpts, prefix: &str) -> (r: Vec<String>)
    ensures
        strs(r@) == install_report_spec(*opts, prefix@),
{
    let mut r: Vec<String> = Vec::new();
    push_line(&mut r, "");
    push_line(&mut r, "  ✓ nextar.exe + nextar-gui.exe + nextar-setup.exe");
    if opts.context_menu {
        push_line(&mut r, "  ✓ right-click any file/folder → “Compress to .next” / “Compress to .next and email”");
        push_line(&mut r, "  ✓ right-click a folder → “Extract .next… here”");
        push_line(&mut r, "  ✓ right-click a .next archive → “Open in nextar” / “Extract here” / “Repair with .nvol…”");
        push_line(&mut r, "  ✓ Send To → “Compress to .next” (multi-select)");
    }
    if opts.association {
        push_line(&mut r, "  ✓ double-click a .next archive → opens in nextar-gui");
    }
    push_line(&mut r, "  ✓ uninstall entry registered (Settings → Apps → nextar)");
    push_line(&mut r, "");
    push_line(&mut r, "done — right-click anything in Explorer to use nextar.");
    let mut last = copy_str("remove it anytime with: \"");
    let setup = join(prefix, "nextar-setup.exe");
    push_str(&mut last, setup.as_str());
    push_str(&mut last, "\" --uninstall");
    push_line(&mut r, last.as_str());
    proof {
        assert(strs(r@) =~= install_report_spec(*opts, prefix@));
    }
    r
}

// ─────────────────────────── per-user folders ───────────────────────────

/// A folder from the environment, or `.` when the variable is unset.
pub open spec fn env_dir(v: Option<Seq<char>>) -> Seq<char> {
    match v {
        Some(d) => d,
        None => "."@,
    }
}

/// The characters of an optional text.
pub open spec fn opt_chars(v: Option<&str>) -> Option<Seq<char>> {
    match v {
        Some(d) => Some(d@),
        None => None,
    }
}

fn env_dir_exec(v: Option<&str>) -> (r: String)
    ensures
        r@ == env_dir(opt_chars(v)),
{
    match v {
        Some(d) => copy_str(d),
        None => copy_str("."),
    }
}

/// The default install folder: `nextar` in `%LOCALAPPDATA%` (`.` when unset).
pub fn default_install_dir(local_app_data: Option<&str>) -> (r: String)
    ensures
        r@ == join_spec(env_dir(opt_chars(local_app_data)), "nextar"@),
{
    let base = env_dir_exec(local_app_data);
    join(base.as_str(), "nextar")
}

/// The Start-menu programs folder under `%APPDATA%`.
pub open spec fn programs_dir(app_data: Seq<char>) -> Seq<char> {
    join_spec(join_spec(join_spec(join_spec(app_data, "Microsoft"@), "Windows"@), "Start Menu"@), "Programs"@)
}

/// The per-user shortcut paths: `nextar.lnk` in the Start-menu programs
/// folder under `%APPDATA%`, and on the desktop under `%USERPROFILE%`
/// (each folder `.` when its variable is unset).
pub fn shortcut_paths(app_data: Option<&str>, user_profile: Option<&str>) -> (r: (String, String))
    ensures
        r.0@ == join_spec(programs_dir(env_dir(opt_chars(app_data))), "nextar.lnk"@),
        r.1@ == join_spec(
            match user_profile {
                Some(p) => join_spec(p@, "Desktop"@),
                None => "."@,
            },
            "nextar.lnk"@,
        ),
{
    let a = env_dir_exec(app_data);
    let m = join(a.as_str(), "Microsoft");
    let w = join(m.as_str(), "Windows");
    let sm = join(w.as_str(), "Start Menu");
    let pr = join(sm.as_str(), "Programs");
    let start = join(pr.as_str(), "nextar.lnk");
    let desk = match user_profile {
        Some(p) => join(p, "Desktop"),
        None => copy_str("."),
    };
    let desktop = join(desk.as_str(), "nextar.lnk");
    (start, desktop)
}

/// The user's Send To folder under `%APPDATA%` (`.` when unset).
pub fn sendto_dir(app_data: Option<&str>) -> (r: String)
    ensures
        r@ == join_spec(
            join_spec(join_spec(env_dir(opt_chars(app_data)), "Microsoft"@), "Windows"@),
            "SendTo"@,
        ),
{
    let a = env_dir_exec(app_data);
    let m = join(a.as_str(), "Microsoft");
    let w = join(m.as_str(), "Windows");
    join(w.as_str(), "SendTo")
}

} // verus!

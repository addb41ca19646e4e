//! The command line: `apply` and `apply-existing`, with their options.
use vstd::prelude::*;
use crate::text::{chars_of, opt_text, string_of};
use vstd::string::*;

verus! {

/// A parsed command line.
#[derive(Debug, PartialEq, Eq)]
pub struct Cli {
    pub command: Command,
}

/// The subcommands and their options.
#[derive(Debug, PartialEq, Eq)]
pub enum Command {
    Apply { file: Option<String>, dry_run: bool },
    ApplyExisting {
        file: Option<String>,
        workspace_id: String,
        tab_id: String,
        root_pane_id: String,
        root: Option<String>,
        dry_run: bool,
    },
}

/// Why a command line was refused. Option names are given in their long form.
#[derive(Debug, PartialEq, Eq)]
pub enum CliError {
    MissingSubcommand,
    UnknownSubcommand(String),
    UnexpectedArgument(String),
    MissingValue(String),
    EmptyValue(String),
    RepeatedArgument(String),
    MissingRequired(String),
    HelpRequested,
}

/// The subcommands.
pub enum Sub {
    Apply,
    ApplyExisting,
}

/// The options of the subcommands.
#[derive(PartialEq, Eq, Structural, Clone, Copy)]
pub enum Flag {
    File,
    DryRun,
    WorkspaceId,
    TabId,
    RootPaneId,
    Root,
    Help,
}

/// The long name of an option.
pub open spec fn long_name(f: Flag) -> Seq<char> {
    match f {
        Flag::File => "--file"@,
        Flag::DryRun => "--dry-run"@,
        Flag::WorkspaceId => "--workspace-id"@,
        Flag::TabId => "--tab-id"@,
        Flag::RootPaneId => "--root-pane-id"@,
        Flag::Root => "--root"@,
        Flag::Help => "--help"@,
    }
}

/// Whether an option takes a value.
pub open spec fn takes_value(f: Flag) -> bool {
    !(f == Flag::DryRun || f == Flag::Help)
}

/// Whether an option's value is a path, which must not be empty.
pub open spec fn is_path_flag(f: Flag) -> bool {
    f == Flag::File || f == Flag::Root
}

/// The long options a subcommand accepts besides `--help`, in the order they
/// are tried.
pub open spec fn long_flags(sub: Sub) -> Seq<Flag> {
    match sub {
        Sub::Apply => seq![Flag::File, Flag::DryRun],
        Sub::ApplyExisting => seq![
            Flag::File,
            Flag::WorkspaceId,
            Flag::TabId,
            Flag::RootPaneId,
            Flag::Root,
            Flag::DryRun,
        ],
    }
}

pub open spec fn starts_with(t: Seq<char>, p: Seq<char>) -> bool {
    t.len() >= p.len() && t.take(p.len() as int) == p
}

/// What token `t` names among `flags`: the first option written exactly as
/// `t`, or, for one that takes a value, `t` starting with its name and `=`,
/// the rest being the value.
pub open spec fn long_match(flags: Seq<Flag>, t: Seq<char>) -> Option<(Flag, Option<Seq<char>>)>
    decreases flags.len(),
{
    if flags.len() == 0 {
        None
    } else if t == long_name(flags[0]) {
        Some((flags[0], None))
    } else if takes_value(flags[0]) && starts_with(t, long_name(flags[0]) + "="@) {
        Some((flags[0], Some(t.skip(long_name(flags[0]).len() + 1int))))
    } else {
        long_match(flags.drop_first(), t)
    }
}

/// What option token `t` names, with a value attached to it if any:
/// `-h` and `--help`; `-f` alone, `-f=VALUE` or `-fVALUE`; the subcommand's
/// long options.
pub open spec fn classify(sub: Sub, t: Seq<char>) -> Option<(Flag, Option<Seq<char>>)> {
    if t == "-h"@ || t == "--help"@ {
        Some((Flag::Help, None))
    } else if t == "-f"@ {
        Some((Flag::File, None))
    } else if starts_with(t, "-f="@) {
        Some((Flag::File, Some(t.skip(3))))
    } else if starts_with(t, "-f"@) {
        Some((Flag::File, Some(t.skip(2))))
    } else {
        long_match(long_flags(sub), t)
    }
}

/// A token can be an option's value unless it looks like an option itself.
pub open spec fn is_value_token(t: Seq<char>) -> bool {
    t.len() == 0 || t[0] != '-' || t == "-"@
}

/// The options picked up so far.
pub struct Picked {
    pub file: Option<Seq<char>>,
    pub workspace_id: Option<Seq<char>>,
    pub tab_id: Option<Seq<char>>,
    pub root_pane_id: Option<Seq<char>>,
    pub root: Option<Seq<char>>,
    pub dry_run: bool,
}

/// The value already given for option `f`.
pub open spec fn picked_value(p: Picked, f: Flag) -> Option<Seq<char>> {
    match f {
        Flag::File => p.file,
        Flag::WorkspaceId => p.workspace_id,
        Flag::TabId => p.tab_id,
        Flag::RootPaneId => p.root_pane_id,
        Flag::Root => p.root,
        _ => None,
    }
}

/// `p` with option `f` set to `v`.
pub open spec fn with_value(p: Picked, f: Flag, v: Seq<char>) -> Picked {
    match f {
        Flag::File => Picked { file: Some(v), ..p },
        Flag::WorkspaceId => Picked { workspace_id: Some(v), ..p },
        Flag::TabId => Picked { tab_id: Some(v), ..p },
        Flag::RootPaneId => Picked { root_pane_id: Some(v), ..p },
        Flag::Root => Picked { root: Some(v), ..p },
        _ => p,
    }
}

/// Why a command line was refused, over plain text.
pub enum ArgFault {
    MissingSubcommand,
    UnknownSubcommand(Seq<char>),
    UnexpectedArgument(Seq<char>),
    MissingValue(Seq<char>),
    EmptyValue(Seq<char>),
    RepeatedArgument(Seq<char>),
    MissingRequired(Seq<char>),
    HelpRequested,
}

/// The options of subcommand `sub` read from `toks`, left to right, on top of `p`.
pub open spec fn scan(sub: Sub, toks: Seq<Seq<char>>, p: Picked) -> Result<Picked, ArgFault>
    decreases toks.len(),
{
    if toks.len() == 0 {
        Ok(p)
    } else {
        match classify(sub, toks[0]) {
            None => Err(ArgFault::UnexpectedArgument(toks[0])),
            Some((f, attached)) => if f == Flag::Help {
                Err(ArgFault::HelpRequested)
            } else if f == Flag::DryRun {
                if p.dry_run {
                    Err(ArgFault::RepeatedArgument(long_name(f)))
                } else {
                    scan(sub, toks.drop_first(), Picked { dry_run: true, ..p })
                }
            } else {
                let (value, used) = match attached {
                    Some(v) => (Some(v), 1int),
                    None => if toks.len() >= 2 && is_value_token(toks[1]) {
                        (Some(toks[1]), 2int)
                    } else {
                        (None, 1int)
                    },
                };
                match value {
                    None => Err(ArgFault::MissingValue(long_name(f))),
                    Some(v) => if picked_value(p, f) is Some {
                        Err(ArgFault::RepeatedArgument(long_name(f)))
                    } else if is_path_flag(f) && v.len() == 0 {
                        Err(ArgFault::EmptyValue(long_name(f)))
                    } else {
                        scan(sub, toks.skip(used), with_value(p, f, v))
                    },
                }
            },
        }
    }
}

/// A parsed command, over plain text.
pub enum CommandView {
    Apply { file: Option<Seq<char>>, dry_run: bool },
    ApplyExisting {
        file: Option<Seq<char>>,
        workspace_id: Seq<char>,
        tab_id: Seq<char>,
        root_pane_id: Seq<char>,
        root: Option<Seq<char>>,
        dry_run: bool,
    },
}

pub open spec fn nothing_picked() -> Picked {
    Picked {
        file: None,
        workspace_id: None,
        tab_id: None,
        root_pane_id: None,
        root: None,
        dry_run: false,
    }
}

/// The command line `args` (program name first) read as a command: the
/// subcommand comes first, its options follow in any order, each at most once;
/// `apply-existing` needs its three target ids.
pub open spec fn parsed(args: Seq<Seq<char>>) -> Result<CommandView, ArgFault> {
    if args.len() < 2 {
        Err(ArgFault::MissingSubcommand)
    } else if args[1] == "-h"@ || args[1] == "--help"@ || args[1] == "help"@ {
        Err(ArgFault::HelpRequested)
    } else if args[1] == "apply"@ {
        match scan(Sub::Apply, args.skip(2), nothing_picked()) {
            Ok(p) => Ok(CommandView::Apply { file: p.file, dry_run: p.dry_run }),
            Err(e) => Err(e),
        }
    } else if args[1] == "apply-existing"@ {
        match scan(Sub::ApplyExisting, args.skip(2), nothing_picked()) {
            Ok(p) => if p.workspace_id is None {
                Err(ArgFault::MissingRequired("--workspace-id"@))
            } else if p.tab_id is None {
                Err(ArgFault::MissingRequired("--tab-id"@))
            } else if p.root_pane_id is None {
                Err(ArgFault::MissingRequired("--root-pane-id"@))
            } else {
                Ok(
                    CommandView::ApplyExisting {
                        file: p.file,
                        workspace_id: p.workspace_id->0,
                        tab_id: p.tab_id->0,
                        root_pane_id: p.root_pane_id->0,
                        root: p.root,
                        dry_run: p.dry_run,
                    },
                )
            },
            Err(e) => Err(e),
        }
    } else if args[1].len() > 0 && args[1][0] == '-' {
        Err(ArgFault::UnexpectedArgument(args[1]))
    } else {
        Err(ArgFault::UnknownSubcommand(args[1]))
    }
}

/// The plain-text view of a refusal.
pub open spec fn fault_of(e: CliError) -> ArgFault {
    match e {
        CliError::MissingSubcommand => ArgFault::MissingSubcommand,
        CliError::UnknownSubcommand(s) => ArgFault::UnknownSubcommand(s@),
        CliError::UnexpectedArgument(s) => ArgFault::UnexpectedArgument(s@),
        CliError::MissingValue(s) => ArgFault::MissingValue(s@),
        CliError::EmptyValue(s) => ArgFault::EmptyValue(s@),
        CliError::RepeatedArgument(s) => ArgFault::RepeatedArgument(s@),
        CliError::MissingRequired(s) => ArgFault::MissingRequired(s@),
        CliError::HelpRequested => ArgFault::HelpRequested,
    }
}

/// The plain-text view of a command.
pub open spec fn command_view(c: Command) -> CommandView {
    match c {
        Command::Apply { file, dry_run } => CommandView::Apply { file: opt_text(file), dry_run },
        Command::ApplyExisting { file, workspace_id, tab_id, root_pane_id, root, dry_run } => {
            CommandView::ApplyExisting {
                file: opt_text(file),
                workspace_id: workspace_id@,
                tab_id: tab_id@,
                root_pane_id: root_pane_id@,
                root: opt_text(root),
                dry_run,
            }
        },
    }
}

/// The texts of the command line's words.
pub open spec fn words(args: Seq<&str>) -> Seq<Seq<char>> {
    args.map_values(|a: &str| a@)
}

/// Options gathered while reading a command line.
struct PickedArgs {
    file: Option<String>,
    workspace_id: Option<String>,
    tab_id: Option<String>,
    root_pane_id: Option<String>,
    root: Option<String>,
    dry_run: bool,
}

impl PickedArgs {
    spec fn view(&self) -> Picked {
        Picked {
            file: opt_text(self.file),
            workspace_id: opt_text(self.workspace_id),
            tab_id: opt_text(self.tab_id),
            root_pane_id: opt_text(self.root_pane_id),
            root: opt_text(self.root),
            dry_run: self.dry_run,
        }
    }
}

fn tok_eq(t: &Vec<char>, lit: &str) -> (r: bool)
    ensures
        r == (t@ == lit@),
{
    let l = chars_of(lit);
    if t.len() != l.len() {
        return false;
    }
    let mut i: usize = 0;
    while i < t.len()
        invariant
            i <= t.len(),
            t.len() == l.len(),
            l@ == lit@,
            forall|k: int| 0 <= k < i ==> t@[k] == l@[k],
        decreases t.len() - i,
    {
        if t[i] != l[i] {
            return false;
        }
        i = i + 1;
    }
    assert(t@ =~= l@);
    true
}

/// Whether `t` starts with `lit` followed by `=` when `eq` is set, or with
/// `lit` alone otherwise.
fn tok_starts(t: &Vec<char>, lit: &str, eq: bool) -> (r: bool)
    ensures
        r == starts_with(t@, if eq { lit@ + "="@ } else { lit@ }),
{
    let mut l = chars_of(lit);
    if eq {
        l.push('=');
    }
    proof {
        reveal_strlit("=");
        assert(l@ == if eq { lit@ + "="@ } else { lit@ });
    }
    if t.len() < l.len() {
        return false;
    }
    let mut i: usize = 0;
    while i < l.len()
        invariant
            i <= l.len(),
            l.len() <= t.len(),
            l@ == (if eq {
                lit@ + "="@
            } else {
                lit@
            }),
            forall|k: int| 0 <= k < i ==> t@[k] == l@[k],
        decreases l.len() - i,
    {
        if t[i] != l[i] {
            assert(t@.take(l.len() as int)[i as int] != l@[i as int]);
            return false;
        }
        i = i + 1;
    }
    assert(t@.take(l.len() as int) =~= l@);
    true
}

fn chars_from(t: &Vec<char>, n: usize) -> (r: Vec<char>)
    requires
        n <= t.len(),
    ensures
        r@ == t@.skip(n as int),
{
    let mut out: Vec<char> = Vec::new();
    let mut i: usize = n;
    while i < t.len()
        invariant
            n <= i <= t.len(),
            out@ == t@.subrange(n as int, i as int),
        decreases t.len() - i,
    {
        out.push(t[i]);
        assert(t@.subrange(n as int, i + 1) == t@.subrange(n as int, i as int).push(t@[i as int]));
        i = i + 1;
    }
    out
}

fn flag_name(f: Flag) -> (r: &'static str)
    ensures
        r@ == long_name(f),
{
    match f {
        Flag::File => "--file",
        Flag::DryRun => "--dry-run",
        Flag::WorkspaceId => "--workspace-id",
        Flag::TabId => "--tab-id",
        Flag::RootPaneId => "--root-pane-id",
        Flag::Root => "--root",
        Flag::Help => "--help",
    }
}

fn flag_takes_value(f: Flag) -> (r: bool)
    ensures
        r == takes_value(f),
{
    match f {
        Flag::DryRun | Flag::Help => false,
        _ => true,
    }
}

fn flags_of(sub: &Sub) -> (r: Vec<Flag>)
    ensures
        r@ == long_flags(*sub),
{
    let mut v: Vec<Flag> = Vec::new();
    match sub {
        Sub::Apply => {
            v.push(Flag::File);
            v.push(Flag::DryRun);
        },
        Sub::ApplyExisting => {
            v.push(Flag::File);
            v.push(Flag::WorkspaceId);
            v.push(Flag::TabId);
            v.push(Flag::RootPaneId);
            v.push(Flag::Root);
            v.push(Flag::DryRun);
        },
    }
    assert(v@ =~= long_flags(*sub));
    v
}

/// The plain-text view of a classified token.
spec fn class_view(c: Option<(Flag, Option<Vec<char>>)>) -> Option<(Flag, Option<Seq<char>>)> {
    match c {
        Some((f, Some(v))) => Some((f, Some(v@))),
        Some((f, None)) => Some((f, None)),
        None => None,
    }
}

fn classify_token(sub: &Sub, t: &Vec<char>) -> (r: Option<(Flag, Option<Vec<char>>)>)
    ensures
        class_view(r) == classify(*sub, t@),
{
    if tok_eq(t, "-h") || tok_eq(t, "--help") {
        return Some((Flag::Help, None));
    }
    if tok_eq(t, "-f") {
        return Some((Flag::File, None));
    }
    if tok_starts(t, "-f=", false) {
        proof {
            reveal_strlit("-f=");
        }
        return Some((Flag::File, Some(chars_from(t, 3))));
    }
    if tok_starts(t, "-f", false) {
        proof {
            reveal_strlit("-f");
        }
        return Some((Flag::File, Some(chars_from(t, 2))));
    }
    let flags = flags_of(sub);
    let ghost all = flags@;
    let mut i: usize = 0;
    assert(all.skip(0) == all);
    while i < flags.len()
        invariant
            i <= flags.len(),
            flags@ == all,
            all == long_flags(*sub),
            long_match(all, t@) == long_match(all.skip(i as int), t@),
            !(t@ == "-h"@ || t@ == "--help"@),
            t@ != "-f"@,
            !starts_with(t@, "-f="@),
            !starts_with(t@, "-f"@),
        decreases flags.len() - i,
    {
        let f = flags[i];
        let name = flag_name(f);
        assert(all.skip(i as int)[0] == f);
        if tok_eq(t, name) {
            return Some((f, None));
        }
        if flag_takes_value(f) && tok_starts(t, name, true) {
            let n = name.unicode_len();
            proof {
                reveal_strlit("=");
            }
            assert(n + 1 <= t.len());
            let rest = chars_from(t, n + 1);
            return Some((f, Some(rest)));
        }
        assert(all.skip(i as int).drop_first() == all.skip(i + 1));
        i = i + 1;
    }
    None
}

fn set_value(p: &mut PickedArgs, f: Flag, v: String)
    ensures
        final(p)@ == with_value(old(p)@, f, v@),
{
    match f {
        Flag::File => p.file = Some(v),
        Flag::WorkspaceId => p.workspace_id = Some(v),
        Flag::TabId => p.tab_id = Some(v),
        Flag::RootPaneId => p.root_pane_id = Some(v),
        Flag::Root => p.root = Some(v),
        _ => {},
    }
}

fn has_value(p: &PickedArgs, f: Flag) -> (r: bool)
    ensures
        r == (picked_value(p@, f) is Some),
{
    match f {
        Flag::File => p.file.is_some(),
        Flag::WorkspaceId => p.workspace_id.is_some(),
        Flag::TabId => p.tab_id.is_some(),
        Flag::RootPaneId => p.root_pane_id.is_some(),
        Flag::Root => p.root.is_some(),
        _ => false,
    }
}

fn scan_options(sub: &Sub, args: &[&str]) -> (r: Result<PickedArgs, CliError>)
    requires
        args@.len() >= 2,
    ensures
        match (r, scan(*sub, words(args@).skip(2), nothing_picked())) {
            (Ok(p), Ok(q)) => p@ == q,
            (Err(e), Err(f)) => fault_of(e) == f,
            _ => false,
        },
{
    let ghost toks = words(args@);
    let mut p = PickedArgs {
        file: None,
        workspace_id: None,
        tab_id: None,
        root_pane_id: None,
        root: None,
        dry_run: false,
    };
    let mut i: usize = 2;
    while i < args.len()
        invariant
            2 <= i <= args@.len(),
            toks == words(args@),
            scan(*sub, toks.skip(2), nothing_picked()) == scan(*sub, toks.skip(i as int), p@),
        decreases args.len() - i,
    {
        let ghost rest = toks.skip(i as int);
        let t = chars_of(args[i]);
        assert(rest[0] == t@);
        match classify_token(sub, &t) {
            None => {
                return Err(CliError::UnexpectedArgument(args[i].to_owned()));
            },
            Some((f, attached)) => {
                if f == Flag::Help {
                    return Err(CliError::HelpRequested);
                }
                if f == Flag::DryRun {
                    if p.dry_run {
                        return Err(CliError::RepeatedArgument(flag_name(f).to_owned()));
                    }
                    p.dry_run = true;
                    assert(rest.drop_first() == toks.skip(i + 1));
                    i = i + 1;
                } else {
                    let value: Vec<char>;
                    let used: usize;
                    match attached {
                        Some(v) => {
                            value = v;
                            used = 1;
                        },
                        None => {
                            if i + 1 < args.len() {
                                let nv = chars_of(args[i + 1]);
                                assert(rest[1] == nv@);
                                if nv.len() == 0 || nv[0] != '-' || tok_eq(&nv, "-") {
                                    value = nv;
                                    used = 2;
                                } else {
                                    return Err(CliError::MissingValue(flag_name(f).to_owned()));
                                }
                            } else {
                                return Err(CliError::MissingValue(flag_name(f).to_owned()));
                            }
                        },
                    }
                    if has_value(&p, f) {
                        return Err(CliError::RepeatedArgument(flag_name(f).to_owned()));
                    }
                    if (f == Flag::File || f == Flag::Root) && value.len() == 0 {
                        return Err(CliError::EmptyValue(flag_name(f).to_owned()));
                    }
                    let text = string_of(&value);
                    set_value(&mut p, f, text);
                    assert(rest.skip(used as int) == toks.skip(i + used));
                    i = i + used;
                }
            },
        }
    }
    assert(toks.skip(i as int).len() == 0);
    Ok(p)
}

/// Reads a command line (program name first).
pub fn parse_args(args: &[&str]) -> (r: Result<Cli, CliError>)
    ensures
        match (r, parsed(words(args@))) {
            (Ok(cli), Ok(c)) => command_view(cli.command) == c,
            (Err(e), Err(f)) => fault_of(e) == f,
            _ => false,
        },
{
    let ghost toks = words(args@);
    if args.len() < 2 {
        return Err(CliError::MissingSubcommand);
    }
    let s = chars_of(args[1]);
    assert(toks[1] == s@);
    if tok_eq(&s, "-h") || tok_eq(&s, "--help") || tok_eq(&s, "help") {
        return Err(CliError::HelpRequested);
    }
    if tok_eq(&s, "apply") {
        let p = scan_options(&Sub::Apply, args)?;
        return Ok(Cli { command: Command::Apply { file: p.file, dry_run: p.dry_run } });
    }
    if tok_eq(&s, "apply-existing") {
        let p = scan_options(&Sub::ApplyExisting, args)?;
        let PickedArgs { file, workspace_id, tab_id, root_pane_id, root, dry_run } = p;
        let workspace_id = match workspace_id {
            Some(v) => v,
            None => {
                return Err(CliError::MissingRequired("--workspace-id".to_owned()));
            },
        };
        let tab_id = match tab_id {
            Some(v) => v,
            None => {
                return Err(CliError::MissingRequired("--tab-id".to_owned()));
            },
        };
        let root_pane_id = match root_pane_id {
            Some(v) => v,
            None => {
                return Err(CliError::MissingRequired("--root-pane-id".to_owned()));
            },
        };
        return Ok(
            Cli {
                command: Command::ApplyExisting {
                    file,
                    workspace_id,
                    tab_id,
                    root_pane_id,
                    root,
                    dry_run,
                },
            },
        );
    }
    if s.len() > 0 && s[0] == '-' {
        Err(CliError::UnexpectedArgument(args[1].to_owned()))
    } else {
        Err(CliError::UnknownSubcommand(args[1].to_owned()))
    }
}

impl Cli {
    /// Reads a command line given as an array of words (program name first).
    pub fn try_parse_from<const N: usize>(args: [&str; N]) -> (r: Result<Cli, CliError>)
        ensures
            match (r, parsed(words(args@))) {
                (Ok(cli), Ok(c)) => command_view(cli.command) == c,
                (Err(e), Err(f)) => fault_of(e) == f,
                _ => false,
            },
    {
        parse_args(args.as_slice())
    }
}

proof fn lemma_classify_dry_run(sub: Sub, t: Seq<char>)
    ensures
        (classify(sub, t) matches Some((f, _)) && f == Flag::DryRun) <==> t == "--dry-run"@,
{
    reveal_strlit("--dry-run");
    reveal_strlit("-h");
    reveal_strlit("--help");
    reveal_strlit("-f");
    reveal_strlit("-f=");
    reveal_strlit("--file");
    reveal_strlit("--workspace-id");
    reveal_strlit("--tab-id");
    reveal_strlit("--root-pane-id");
    reveal_strlit("--root");
    reveal_strlit("=");
    reveal_with_fuel(long_match, 7);
    let d = "--dry-run"@;
    assert(d.len() == 9);
    assert(d != "-h"@);
    assert(d != "--help"@);
    assert(d != "-f"@);
    assert(!starts_with(d, "-f="@)) by {
        assert(d.take(3)[1] != "-f="@[1]);
    }
    assert(!starts_with(d, "-f"@)) by {
        assert(d.take(2)[1] != "-f"@[1]);
    }
    assert(d != "--file"@);
    assert(!starts_with(d, "--file"@ + "="@)) by {
        assert(d.take(7)[2] != ("--file"@ + "="@)[2]);
    }
    assert(d != "--workspace-id"@);
    assert(!starts_with(d, "--workspace-id"@ + "="@));
    assert(d != "--tab-id"@);
    assert(!starts_with(d, "--tab-id"@ + "="@)) by {
        assert(d.take(9)[2] != ("--tab-id"@ + "="@)[2]);
    }
    assert(d != "--root-pane-id"@);
    assert(!starts_with(d, "--root-pane-id"@ + "="@));
    assert(d != "--root"@);
    assert(!starts_with(d, "--root"@ + "="@)) by {
        assert(d.take(7)[2] != ("--root"@ + "="@)[2]);
    }
}

proof fn lemma_scan_dry_run(sub: Sub, toks: Seq<Seq<char>>, p: Picked)
    ensures
        scan(sub, toks, p) matches Ok(q) ==> q.dry_run == (p.dry_run || exists|i: int|
            0 <= i < toks.len() && #[trigger] toks[i] == "--dry-run"@),
    decreases toks.len(),
{
    reveal_strlit("--dry-run");
    if toks.len() > 0 {
        lemma_classify_dry_run(sub, toks[0]);
        match classify(sub, toks[0]) {
            None => {},
            Some((f, attached)) => {
                if f == Flag::Help {
                } else if f == Flag::DryRun {
                    if !p.dry_run {
                        lemma_scan_dry_run(sub, toks.drop_first(), Picked { dry_run: true, ..p });
                    }
                } else {
                    let used: int = match attached {
                        Some(v) => 1int,
                        None => if toks.len() >= 2 && is_value_token(toks[1]) {
                            2int
                        } else {
                            1int
                        },
                    };
                    let value: Option<Seq<char>> = match attached {
                        Some(v) => Some(v),
                        None => if toks.len() >= 2 && is_value_token(toks[1]) {
                            Some(toks[1])
                        } else {
                            None
                        },
                    };
                    if value is Some {
                        let v = value->0;
                        let np = with_value(p, f, v);
                        assert(np.dry_run == p.dry_run);
                        lemma_scan_dry_run(sub, toks.skip(used), np);
                        if used == 2 {
                            assert(toks[1] != "--dry-run"@) by {
                                if toks[1] == "--dry-run"@ {
                                    reveal_strlit("-");
                                    assert(toks[1][0] == '-');
                                    assert(toks[1].len() != "-"@.len());
                                }
                            }
                        }
                        if scan(sub, toks, p) is Ok {
                            assert((exists|i: int|
                                0 <= i < toks.len() && #[trigger] toks[i] == "--dry-run"@) == (
                            exists|i: int|
                                0 <= i < toks.skip(used).len() && #[trigger] toks.skip(used)[i]
                                    == "--dry-run"@)) by {
                                if exists|i: int|
                                    0 <= i < toks.len() && #[trigger] toks[i] == "--dry-run"@ {
                                    let i = choose|i: int|
                                        0 <= i < toks.len() && #[trigger] toks[i] == "--dry-run"@;
                                    assert(i >= used);
                                    assert(toks.skip(used)[i - used] == toks[i]);
                                }
                                if exists|i: int|
                                    0 <= i < toks.skip(used).len() && #[trigger] toks.skip(
                                        used,
                                    )[i] == "--dry-run"@ {
                                    let i = choose|i: int|
                                        0 <= i < toks.skip(used).len() && #[trigger] toks.skip(
                                            used,
                                        )[i] == "--dry-run"@;
                                    assert(toks[i + used] == toks.skip(used)[i]);
                                }
                            }
                        }
                    }
                }
            },
        }
    }
}

/// Either subcommand runs dry exactly when the word `--dry-run` occurs among
/// the words after the subcommand: `--dry-run` is never taken as another
/// option's value.
pub proof fn law_dry_run_exactly_when_flag_given(args: Seq<Seq<char>>)
    ensures
        parsed(args) matches Ok(c) ==> match c {
            CommandView::Apply { dry_run, .. } => dry_run,
            CommandView::ApplyExisting { dry_run, .. } => dry_run,
        } == exists|i: int| 2 <= i < args.len() && #[trigger] args[i] == "--dry-run"@,
{
    if args.len() >= 2 {
        let toks = args.skip(2);
        lemma_scan_dry_run(Sub::Apply, toks, nothing_picked());
        lemma_scan_dry_run(Sub::ApplyExisting, toks, nothing_picked());
        assert((exists|i: int| 2 <= i < args.len() && #[trigger] args[i] == "--dry-run"@) == (
        exists|i: int| 0 <= i < toks.len() && #[trigger] toks[i] == "--dry-run"@)) by {
            if exists|i: int| 2 <= i < args.len() && #[trigger] args[i] == "--dry-run"@ {
                let i = choose|i: int| 2 <= i < args.len() && #[trigger] args[i] == "--dry-run"@;
                assert(toks[i - 2] == args[i]);
            }
            if exists|i: int| 0 <= i < toks.len() && #[trigger] toks[i] == "--dry-run"@ {
                let i = choose|i: int| 0 <= i < toks.len() && #[trigger] toks[i] == "--dry-run"@;
                assert(args[i + 2] == toks[i]);
            }
        }
    }
}

} // verus!

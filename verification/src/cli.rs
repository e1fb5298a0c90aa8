//! The decisions of the command-line front end: which command the arguments name,
//! what a `teach` request asks for, and the labels and counters that the reports
//! print. Reading files, the brain store and printing are left to the program around
//! the library.
use vstd::prelude::*;
use vstd::string::StringExecFns;

use crate::text::{
    char_vecs, chars_of, contains_char, has_char, is_white_space, join_chars, join_with,
    matches_str, starts_with, starts_with_chars, string_of, trim_whitespace, trim_ws, views,
    white_space,
};

verus! {

// ---------------------------------------------------------------------------
// Commands
// ---------------------------------------------------------------------------

/// The commands of the program.
pub enum Command {
    Help,
    Teach,
    Ask,
    Inspect,
    Reset,
}

/// The command that the first argument names, or the message for an unknown one. No
/// argument at all asks for help.
pub open spec fn command_of(args: Seq<Seq<char>>) -> Result<Command, Seq<char>> {
    if args.len() == 0 {
        Ok(Command::Help)
    } else {
        let c = args[0];
        if c == "teach"@ {
            Ok(Command::Teach)
        } else if c == "ask"@ {
            Ok(Command::Ask)
        } else if c == "inspect"@ {
            Ok(Command::Inspect)
        } else if c == "reset"@ {
            Ok(Command::Reset)
        } else if c == "help"@ || c == "--help"@ || c == "-h"@ {
            Ok(Command::Help)
        } else {
            Err("unknown command '"@ + c + "'"@)
        }
    }
}

/// The command named by the arguments (without the program name); the command's own
/// arguments are those after the first.
pub fn parse_command(args: &Vec<String>) -> (r: Result<Command, String>)
    ensures
        match r {
            Ok(c) => command_of(views(args@)) == Ok::<Command, Seq<char>>(c),
            Err(e) => command_of(views(args@)) == Err::<Command, Seq<char>>(e@),
        },
{
    if args.len() == 0 {
        return Ok(Command::Help);
    }
    let first = chars_of(args[0].as_str());
    assert(views(args@)[0] == first@);
    if matches_str(&first, "teach") {
        Ok(Command::Teach)
    } else if matches_str(&first, "ask") {
        Ok(Command::Ask)
    } else if matches_str(&first, "inspect") {
        Ok(Command::Inspect)
    } else if matches_str(&first, "reset") {
        Ok(Command::Reset)
    } else if matches_str(&first, "help") || matches_str(&first, "--help") || matches_str(
        &first,
        "-h",
    ) {
        Ok(Command::Help)
    } else {
        let mut message = String::from_str("unknown command '");
        message.append(args[0].as_str());
        message.append("'");
        Err(message)
    }
}

/// The words of `args` joined by spaces and trimmed, or the empty-input message when
/// nothing is left.
pub open spec fn joined_text_of(args: Seq<Seq<char>>) -> Result<Seq<char>, Seq<char>> {
    let trimmed = trim_ws(join_with(args, seq![' ']));
    if trimmed.len() == 0 {
        Err("input text is empty"@)
    } else {
        Ok(trimmed)
    }
}

pub fn joined_text(args: &[String]) -> (r: Result<String, String>)
    ensures
        match r {
            Ok(s) => joined_text_of(views(args@)) == Ok::<Seq<char>, Seq<char>>(s@),
            Err(e) => joined_text_of(views(args@)) == Err::<Seq<char>, Seq<char>>(e@),
        },
{
    let v = args_vec(args);
    let words = crate::text::char_vecs_of(&v);
    let sep: Vec<char> = vec![' '];
    assert(sep@ =~= seq![' ']);
    let joined = join_chars(&words, &sep);
    let trimmed = trim_whitespace(&joined);
    if trimmed.len() == 0 {
        Err(String::from_str("input text is empty"))
    } else {
        Ok(string_of(&trimmed))
    }
}

fn args_vec(args: &[String]) -> (r: Vec<String>)
    ensures
        views(r@) == views(args@),
{
    let mut r: Vec<String> = Vec::new();
    let mut i: usize = 0;
    while i < args.len()
        invariant
            i <= args.len(),
            views(r@) == views(args@).take(i as int),
        decreases args.len() - i,
    {
        let s = args[i].clone();
        let ghost before = views(r@);
        r.push(s);
        assert(views(r@) =~= before.push(args@[i as int]@));
        assert(views(args@).take(i + 1) =~= views(args@).take(i as int).push(args@[i as int]@));
        i = i + 1;
    }
    assert(views(args@).take(args.len() as int) =~= views(args@));
    r
}

// ---------------------------------------------------------------------------
// Labels
// ---------------------------------------------------------------------------

/// Where an answer came from.
pub enum AnswerSource {
    NeuralWeights,
    NotEnough,
}

pub open spec fn answer_source_text(source: AnswerSource) -> Seq<char> {
    match source {
        AnswerSource::NeuralWeights => "neural weights"@,
        AnswerSource::NotEnough => "not enough"@,
    }
}

pub fn answer_source_label(source: AnswerSource) -> (r: &'static str)
    ensures
        r@ == answer_source_text(source),
{
    match source {
        AnswerSource::NeuralWeights => "neural weights",
        AnswerSource::NotEnough => "not enough",
    }
}

/// What was taught: a text given on the command line, a file or a folder.
#[derive(Clone, Copy, PartialEq, Eq, Structural)]
pub enum TeachMode {
    Text,
    File,
    Folder,
}

pub open spec fn teach_mode_text(mode: TeachMode) -> Seq<char> {
    match mode {
        TeachMode::Text => "text"@,
        TeachMode::File => "file"@,
        TeachMode::Folder => "folder"@,
    }
}

impl TeachMode {
    pub fn label(self) -> (r: &'static str)
        ensures
            r@ == teach_mode_text(self),
    {
        match self {
            TeachMode::Text => "text",
            TeachMode::File => "file",
            TeachMode::Folder => "folder",
        }
    }
}

// ---------------------------------------------------------------------------
// Teach requests
// ---------------------------------------------------------------------------

/// The options and values of a `teach` command.
pub struct TeachArguments {
    pub recursive: bool,
    pub values: Vec<String>,
}

/// The arguments read in order: `--recursive` sets the flag, another argument starting
/// with `--` is refused (the first one), the others are values.
pub open spec fn scan_teach_args(args: Seq<Seq<char>>) -> Result<(bool, Seq<Seq<char>>), Seq<char>>
    decreases args.len(),
{
    if args.len() == 0 {
        Ok((false, seq![]))
    } else {
        match scan_teach_args(args.drop_last()) {
            Err(e) => Err(e),
            Ok((recursive, values)) => {
                let a = args.last();
                if a == "--recursive"@ {
                    Ok((true, values))
                } else if starts_with(a, "--"@) {
                    Err("unknown teach option '"@ + a + "'"@)
                } else {
                    Ok((recursive, values.push(a)))
                }
            },
        }
    }
}

/// The options and values of `teach`, or the message for an unknown option, or the
/// empty-input message when there is no value.
pub open spec fn teach_arguments_of(args: Seq<Seq<char>>) -> Result<(bool, Seq<Seq<char>>), Seq<char>> {
    match scan_teach_args(args) {
        Err(e) => Err(e),
        Ok((recursive, values)) => if values.len() == 0 {
            Err("input text is empty"@)
        } else {
            Ok((recursive, values))
        },
    }
}

pub fn teach_arguments(args: &[String]) -> (r: Result<TeachArguments, String>)
    ensures
        match r {
            Ok(a) => teach_arguments_of(views(args@)) == Ok::<(bool, Seq<Seq<char>>), Seq<char>>(
                (a.recursive, views(a.values@)),
            ),
            Err(e) => teach_arguments_of(views(args@)) == Err::<(bool, Seq<Seq<char>>), Seq<char>>(
                e@,
            ),
        },
{
    let ghost all = views(args@);
    let mut recursive = false;
    let mut values: Vec<String> = Vec::new();
    let mut i: usize = 0;
    let dashes: Vec<char> = vec!['-', '-'];
    assert(dashes@ =~= "--"@) by {
        reveal_strlit("--");
    }
    assert(views(values@) =~= Seq::<Seq<char>>::empty());
    assert(all.take(0) =~= Seq::<Seq<char>>::empty());
    while i < args.len()
        invariant
            all == views(args@),
            dashes@ == "--"@,
            i <= args.len(),
            scan_teach_args(all.take(i as int)) == Ok::<(bool, Seq<Seq<char>>), Seq<char>>(
                (recursive, views(values@)),
            ),
        decreases args.len() - i,
    {
        let arg = chars_of(args[i].as_str());
        assert(all.take(i + 1).drop_last() =~= all.take(i as int));
        assert(all.take(i + 1).last() == arg@);
        if matches_str(&arg, "--recursive") {
            recursive = true;
        } else if starts_with_chars(&arg, &dashes) {
            let mut message = String::from_str("unknown teach option '");
            message.append(args[i].as_str());
            message.append("'");
            proof {
                lemma_scan_error_stays(all, i as int + 1);
            }
            return Err(message);
        } else {
            let ghost before = views(values@);
            values.push(args[i].clone());
            assert(views(values@) =~= before.push(arg@));
        }
        i = i + 1;
    }
    assert(all.take(args.len() as int) =~= all);
    if values.len() == 0 {
        return Err(String::from_str("input text is empty"));
    }
    Ok(TeachArguments { recursive, values })
}

/// Once the scan has refused an argument, later arguments do not change the refusal.
pub proof fn lemma_scan_error_stays(args: Seq<Seq<char>>, k: int)
    requires
        0 <= k <= args.len(),
        scan_teach_args(args.take(k)) is Err,
    ensures
        scan_teach_args(args) == scan_teach_args(args.take(k)),
    decreases args.len() - k,
{
    if k < args.len() {
        assert(args.take(k + 1).drop_last() =~= args.take(k));
        lemma_scan_error_stays(args, k + 1);
    } else {
        assert(args.take(k) =~= args);
    }
}

/// Whether an argument is not the `--recursive` flag.
pub open spec fn not_recursive_flag() -> spec_fn(Seq<char>) -> bool {
    |a: Seq<char>| a != "--recursive"@
}

/// Law: when no argument but `--recursive` starts with `--`, the arguments give the flag
/// set exactly when `--recursive` is among them, and the values are all the other
/// arguments, in order.
pub proof fn law_teach_arguments_are_flag_and_values(args: Seq<Seq<char>>)
    requires
        forall|i: int|
            0 <= i < args.len() && #[trigger] args[i] != "--recursive"@ ==> !starts_with(
                args[i],
                "--"@,
            ),
    ensures
        scan_teach_args(args) == Ok::<(bool, Seq<Seq<char>>), Seq<char>>(
            (args.contains("--recursive"@), args.filter(not_recursive_flag())),
        ),
    decreases args.len(),
{
    reveal(Seq::filter);
    if args.len() == 0 {
        assert(args.filter(not_recursive_flag()) =~= Seq::<Seq<char>>::empty());
    } else {
        let init = args.drop_last();
        assert forall|i: int|
            0 <= i < init.len() && #[trigger] init[i] != "--recursive"@ implies !starts_with(
            init[i],
            "--"@,
        ) by {
            assert(init[i] == args[i]);
        }
        law_teach_arguments_are_flag_and_values(init);
        let a = args.last();
        assert(a == args[args.len() - 1]);
        let f = not_recursive_flag();
        if a == "--recursive"@ {
            assert(args.contains("--recursive"@));
            assert(args.filter(f) == init.filter(f));
        } else {
            assert(!starts_with(a, "--"@));
            assert(args.filter(f) == init.filter(f).push(a));
            assert(args.contains("--recursive"@) == init.contains("--recursive"@)) by {
                if args.contains("--recursive"@) {
                    let j = choose|j: int| 0 <= j < args.len() && args[j] == "--recursive"@;
                    assert(init[j] == args[j]);
                }
                if init.contains("--recursive"@) {
                    let j = choose|j: int| 0 <= j < init.len() && init[j] == "--recursive"@;
                    assert(args[j] == init[j]);
                }
            }
        }
    }
}

/// Law: the first argument that starts with `--` and is not `--recursive` is refused,
/// whatever follows it.
pub proof fn law_first_unknown_option_refused(a: Seq<Seq<char>>, o: Seq<char>, b: Seq<Seq<char>>)
    requires
        forall|i: int|
            0 <= i < a.len() && #[trigger] a[i] != "--recursive"@ ==> !starts_with(a[i], "--"@),
        starts_with(o, "--"@),
        o != "--recursive"@,
    ensures
        scan_teach_args(a + seq![o] + b) == Err::<(bool, Seq<Seq<char>>), Seq<char>>(
            "unknown teach option '"@ + o + "'"@,
        ),
{
    let args = a + seq![o] + b;
    law_teach_arguments_are_flag_and_values(a);
    let k = (a.len() + 1) as int;
    assert(args.take(k).drop_last() =~= a);
    assert(args.take(k).last() == o);
    lemma_scan_error_stays(args, k);
}

/// What a single value names on disk, as the program finds it.
#[derive(Clone, Copy, PartialEq, Eq, Structural)]
pub enum PathKind {
    Missing,
    File,
    Folder,
    Other,
}

/// What a `teach` request reads: the text itself, a file or a folder.
pub enum TeachSource {
    RawText(String),
    File(String),
    Folder(String),
}

pub struct TeachRequest {
    pub mode: TeachMode,
    pub source: TeachSource,
}

/// What `std::path::Path::extension` answers, `Some` or `None`, for a path written as
/// this text.
pub uninterp spec fn path_extension_present(path: Seq<char>) -> bool;

/// `Path::new(value).extension().is_some()`: whether the last component of the path has
/// an extension. The claim is only that the answer is `path_extension_present(value@)`.
#[verifier::external_body]
fn path_has_extension(value: &str) -> (r: bool)
    ensures
        r == path_extension_present(value@),
{
    std::path::Path::new(value).extension().is_some()
}

/// Whether a value reads as a path: it holds a slash or a backslash, or it has no white
/// space and an extension, or it is `.` or `..`.
pub open spec fn path_like(value: Seq<char>) -> bool {
    let has_whitespace = exists|i: int| 0 <= i < value.len() && white_space(value[i]);
    ||| has_char(value, '/')
    ||| has_char(value, '\\')
    ||| !has_whitespace && path_extension_present(value)
    ||| value == "."@
    ||| value == ".."@
}

pub fn looks_like_path(value: &str) -> (r: bool)
    ensures
        r == path_like(value@),
{
    let v = chars_of(value);
    let mut has_whitespace = false;
    let mut i: usize = 0;
    while i < v.len()
        invariant
            i <= v.len(),
            has_whitespace == exists|k: int| 0 <= k < i && white_space(v@[k]),
        decreases v.len() - i,
    {
        if is_white_space(v[i]) {
            has_whitespace = true;
        }
        i = i + 1;
    }
    contains_char(&v, '/') || contains_char(&v, '\\') || (!has_whitespace && path_has_extension(
        value,
    )) || matches_str(&v, ".") || matches_str(&v, "..")
}

/// The source that a `teach` request reads. `kind` is what the single value names on
/// disk; it is not consulted when there are several values.
pub open spec fn teach_request_of(recursive: bool, values: Seq<Seq<char>>, kind: PathKind) -> Result<
    (TeachMode, Seq<char>),
    Seq<char>,
> {
    if values.len() == 1 && kind == PathKind::File {
        Ok((TeachMode::File, values[0]))
    } else if values.len() == 1 && kind == PathKind::Folder {
        Ok((TeachMode::Folder, values[0]))
    } else if values.len() == 1 && kind == PathKind::Other {
        Err("input path is not a file or folder: "@ + values[0])
    } else if values.len() == 1 && path_like(values[0]) {
        Err("input path not found: "@ + values[0])
    } else if recursive {
        Err("--recursive can only be used with folder input"@)
    } else {
        Ok((TeachMode::Text, join_with(values, seq![' '])))
    }
}

pub open spec fn source_text(source: TeachSource) -> Seq<char> {
    match source {
        TeachSource::RawText(s) => s@,
        TeachSource::File(s) => s@,
        TeachSource::Folder(s) => s@,
    }
}

pub open spec fn source_matches_mode(source: TeachSource, mode: TeachMode) -> bool {
    match source {
        TeachSource::RawText(_) => mode == TeachMode::Text,
        TeachSource::File(_) => mode == TeachMode::File,
        TeachSource::Folder(_) => mode == TeachMode::Folder,
    }
}

pub fn teach_request(arguments: TeachArguments, kind: PathKind) -> (r: Result<TeachRequest, String>)
    ensures
        match r {
            Ok(req) => source_matches_mode(req.source, req.mode) && teach_request_of(
                arguments.recursive,
                views(arguments.values@),
                kind,
            ) == Ok::<(TeachMode, Seq<char>), Seq<char>>((req.mode, source_text(req.source))),
            Err(e) => teach_request_of(arguments.recursive, views(arguments.values@), kind)
                == Err::<(TeachMode, Seq<char>), Seq<char>>(e@),
        },
{
    let values = arguments.values;
    if values.len() == 1 {
        let value = values[0].clone();
        match kind {
            PathKind::File => {
                return Ok(TeachRequest { mode: TeachMode::File, source: TeachSource::File(value) });
            },
            PathKind::Folder => {
                return Ok(
                    TeachRequest { mode: TeachMode::Folder, source: TeachSource::Folder(value) },
                );
            },
            PathKind::Other => {
                let mut message = String::from_str("input path is not a file or folder: ");
                message.append(value.as_str());
                return Err(message);
            },
            PathKind::Missing => {
                if looks_like_path(value.as_str()) {
                    let mut message = String::from_str("input path not found: ");
                    message.append(value.as_str());
                    return Err(message);
                }
            },
        }
    }
    if arguments.recursive {
        return Err(String::from_str("--recursive can only be used with folder input"));
    }
    let words = crate::text::char_vecs_of(&values);
    let sep: Vec<char> = vec![' '];
    assert(sep@ =~= seq![' ']);
    let joined = string_of(&join_chars(&words, &sep));
    Ok(TeachRequest { mode: TeachMode::Text, source: TeachSource::RawText(joined) })
}

// ---------------------------------------------------------------------------
// Reset and the teach report
// ---------------------------------------------------------------------------

/// The suffixes of the files that live beside the brain file.
pub open spec fn sidecar_suffix(k: int) -> Seq<char> {
    if k == 0 {
        "sources"@
    } else if k == 1 {
        "sourceindex"@
    } else if k == 2 {
        "seq"@
    } else if k == 3 {
        "transformer"@
    } else {
        "langmeta"@
    }
}

fn sidecar_suffix_str(k: usize) -> (r: &'static str)
    ensures
        r@ == sidecar_suffix(k as int),
{
    if k == 0 {
        "sources"
    } else if k == 1 {
        "sourceindex"
    } else if k == 2 {
        "seq"
    } else if k == 3 {
        "transformer"
    } else {
        "langmeta"
    }
}

/// The paths of the files beside the brain file: the brain path, a dot and each suffix.
pub fn known_sidecar_paths(brain_path: &str) -> (r: Vec<String>)
    ensures
        r@.len() == 5,
        forall|k: int| 0 <= k < 5 ==> #[trigger] r@[k]@ == brain_path@ + "."@ + sidecar_suffix(k),
{
    let mut r: Vec<String> = Vec::new();
    let mut k: usize = 0;
    while k < 5
        invariant
            k <= 5,
            r@.len() == k,
            forall|j: int| 0 <= j < k ==> #[trigger] r@[j]@ == brain_path@ + "."@ + sidecar_suffix(j),
        decreases 5 - k,
    {
        let mut path = String::from_str(brain_path);
        path.append(".");
        path.append(sidecar_suffix_str(k));
        r.push(path);
        k = k + 1;
    }
    r
}

/// What one learning step reports, without its losses.
pub struct LearnCounts {
    pub neurons_grown: u32,
    pub layers_grown: u32,
    pub neurons_promoted: u32,
    pub neurons_frozen: u32,
    pub total_neurons: u64,
    pub update_applied: bool,
}

/// The counters of a teach run.
pub struct TeachSummary {
    pub mode: TeachMode,
    pub chunks_processed: usize,
    pub examples_learned: usize,
    pub neurons_grown: u32,
    pub layers_grown: u32,
    pub neurons_promoted: u32,
    pub neurons_frozen: u32,
    pub total_neurons: u64,
    pub update_applied: bool,
    pub last_input: String,
    pub last_target: String,
}

pub open spec fn sat_add(a: u32, b: u32) -> u32 {
    if a + b > u32::MAX {
        u32::MAX
    } else {
        (a + b) as u32
    }
}

/// The counters of a teach run as values.
pub struct SummaryView {
    pub mode: TeachMode,
    pub chunks_processed: nat,
    pub examples_learned: nat,
    pub neurons_grown: u32,
    pub layers_grown: u32,
    pub neurons_promoted: u32,
    pub neurons_frozen: u32,
    pub total_neurons: u64,
    pub update_applied: bool,
    pub last_input: Seq<char>,
    pub last_target: Seq<char>,
}

impl View for TeachSummary {
    type V = SummaryView;

    open spec fn view(&self) -> SummaryView {
        SummaryView {
            mode: self.mode,
            chunks_processed: self.chunks_processed as nat,
            examples_learned: self.examples_learned as nat,
            neurons_grown: self.neurons_grown,
            layers_grown: self.layers_grown,
            neurons_promoted: self.neurons_promoted,
            neurons_frozen: self.neurons_frozen,
            total_neurons: self.total_neurons,
            update_applied: self.update_applied,
            last_input: self.last_input@,
            last_target: self.last_target@,
        }
    }
}

/// The counters at the start of a teach run.
pub open spec fn summary_start(mode: TeachMode, chunks_processed: nat) -> SummaryView {
    SummaryView {
        mode,
        chunks_processed,
        examples_learned: 0,
        neurons_grown: 0,
        layers_grown: 0,
        neurons_promoted: 0,
        neurons_frozen: 0,
        total_neurons: 0,
        update_applied: false,
        last_input: seq![],
        last_target: seq![],
    }
}

/// The counters after one more learned fact: one more example, the growth counters
/// added (saturating), the total and the last fact replaced, an applied update kept.
pub open spec fn record_step(s: SummaryView, input: Seq<char>, target: Seq<char>, report: LearnCounts) -> SummaryView {
    SummaryView {
        mode: s.mode,
        chunks_processed: s.chunks_processed,
        examples_learned: s.examples_learned + 1,
        neurons_grown: sat_add(s.neurons_grown, report.neurons_grown),
        layers_grown: sat_add(s.layers_grown, report.layers_grown),
        neurons_promoted: sat_add(s.neurons_promoted, report.neurons_promoted),
        neurons_frozen: sat_add(s.neurons_frozen, report.neurons_frozen),
        total_neurons: report.total_neurons,
        update_applied: s.update_applied || report.update_applied,
        last_input: input,
        last_target: target,
    }
}

/// The counters after recording each fact in order.
pub open spec fn record_run(
    s: SummaryView,
    inputs: Seq<Seq<char>>,
    targets: Seq<Seq<char>>,
    reports: Seq<LearnCounts>,
) -> SummaryView
    decreases reports.len(),
{
    if reports.len() == 0 || inputs.len() == 0 || targets.len() == 0 {
        s
    } else {
        record_step(
            record_run(s, inputs.drop_last(), targets.drop_last(), reports.drop_last()),
            inputs.last(),
            targets.last(),
            reports.last(),
        )
    }
}

impl TeachSummary {
    pub fn new(mode: TeachMode, chunks_processed: usize) -> (r: Self)
        ensures
            r@ == summary_start(mode, chunks_processed as nat),
    {
        let r = TeachSummary {
            mode,
            chunks_processed,
            examples_learned: 0,
            neurons_grown: 0,
            layers_grown: 0,
            neurons_promoted: 0,
            neurons_frozen: 0,
            total_neurons: 0,
            update_applied: false,
            last_input: String::new(),
            last_target: String::new(),
        };
        assert(r@ =~= summary_start(mode, chunks_processed as nat));
        r
    }

    /// Counts one learned fact: the growth counters add up (saturating), the total and
    /// the last fact are replaced, and an applied update stays recorded.
    pub fn record(&mut self, input: &str, target: &str, report: &LearnCounts)
        requires
            old(self).examples_learned < usize::MAX,
        ensures
            final(self)@ == record_step(old(self)@, input@, target@, *report),
    {
        self.examples_learned += 1;
        self.neurons_grown = self.neurons_grown.saturating_add(report.neurons_grown);
        self.layers_grown = self.layers_grown.saturating_add(report.layers_grown);
        self.neurons_promoted = self.neurons_promoted.saturating_add(report.neurons_promoted);
        self.neurons_frozen = self.neurons_frozen.saturating_add(report.neurons_frozen);
        self.total_neurons = report.total_neurons;
        self.update_applied = self.update_applied || report.update_applied;
        self.last_input = String::from_str(input);
        self.last_target = String::from_str(target);
    }
}

/// The plain sum of a sequence of counts.
pub open spec fn total(xs: Seq<u32>) -> int
    decreases xs.len(),
{
    if xs.len() == 0 {
        0
    } else {
        total(xs.drop_last()) + xs.last()
    }
}

/// A count capped at the top `u32`.
pub open spec fn capped(x: int) -> int {
    if x > u32::MAX {
        u32::MAX as int
    } else {
        x
    }
}

pub open spec fn grown(reports: Seq<LearnCounts>) -> Seq<u32> {
    reports.map_values(|r: LearnCounts| r.neurons_grown)
}

pub open spec fn layers(reports: Seq<LearnCounts>) -> Seq<u32> {
    reports.map_values(|r: LearnCounts| r.layers_grown)
}

pub open spec fn promoted(reports: Seq<LearnCounts>) -> Seq<u32> {
    reports.map_values(|r: LearnCounts| r.neurons_promoted)
}

pub open spec fn frozen(reports: Seq<LearnCounts>) -> Seq<u32> {
    reports.map_values(|r: LearnCounts| r.neurons_frozen)
}

pub proof fn lemma_record_run(
    s: SummaryView,
    inputs: Seq<Seq<char>>,
    targets: Seq<Seq<char>>,
    reports: Seq<LearnCounts>,
)
    requires
        inputs.len() == reports.len(),
        targets.len() == reports.len(),
    ensures
        ({
            let r = record_run(s, inputs, targets, reports);
            &&& r.mode == s.mode
            &&& r.chunks_processed == s.chunks_processed
            &&& r.examples_learned == s.examples_learned + reports.len()
            &&& r.neurons_grown == capped(s.neurons_grown + total(grown(reports)))
            &&& r.layers_grown == capped(s.layers_grown + total(layers(reports)))
            &&& r.neurons_promoted == capped(s.neurons_promoted + total(promoted(reports)))
            &&& r.neurons_frozen == capped(s.neurons_frozen + total(frozen(reports)))
            &&& r.update_applied == (s.update_applied || exists|k: int|
                0 <= k < reports.len() && (#[trigger] reports[k]).update_applied)
            &&& reports.len() > 0 ==> r.total_neurons == reports.last().total_neurons
                && r.last_input == inputs.last() && r.last_target == targets.last()
        }),
    decreases reports.len(),
{
    if reports.len() > 0 {
        let init = reports.drop_last();
        lemma_record_run(s, inputs.drop_last(), targets.drop_last(), init);
        assert(grown(reports).drop_last() =~= grown(init));
        assert(layers(reports).drop_last() =~= layers(init));
        assert(promoted(reports).drop_last() =~= promoted(init));
        assert(frozen(reports).drop_last() =~= frozen(init));
        let prev = record_run(s, inputs.drop_last(), targets.drop_last(), init);
        let r = record_run(s, inputs, targets, reports);
        if r.update_applied {
            if exists|k: int| 0 <= k < init.len() && (#[trigger] init[k]).update_applied {
                let k = choose|k: int| 0 <= k < init.len() && (#[trigger] init[k]).update_applied;
                assert(reports[k] == init[k]);
            }
        } else {
            assert forall|k: int| 0 <= k < reports.len() implies !(#[trigger] reports[k]).update_applied by {
                if k < init.len() {
                    assert(reports[k] == init[k]);
                }
            }
        }
    }
}

/// Law: after a teach run starts and records `n` facts, the counters hold `n`
/// examples, the growth counts summed and capped at the top `u32`, the last total and
/// the last fact, and whether any update was applied; the mode and the number of chunks
/// stay as they were.
pub proof fn law_record_run(
    mode: TeachMode,
    chunks_processed: nat,
    inputs: Seq<Seq<char>>,
    targets: Seq<Seq<char>>,
    reports: Seq<LearnCounts>,
)
    requires
        reports.len() >= 1,
        inputs.len() == reports.len(),
        targets.len() == reports.len(),
    ensures
        ({
            let r = record_run(summary_start(mode, chunks_processed), inputs, targets, reports);
            &&& r.mode == mode
            &&& r.chunks_processed == chunks_processed
            &&& r.examples_learned == reports.len()
            &&& r.neurons_grown == capped(total(grown(reports)))
            &&& r.layers_grown == capped(total(layers(reports)))
            &&& r.neurons_promoted == capped(total(promoted(reports)))
            &&& r.neurons_frozen == capped(total(frozen(reports)))
            &&& r.total_neurons == reports.last().total_neurons
            &&& r.update_applied == exists|k: int|
                0 <= k < reports.len() && (#[trigger] reports[k]).update_applied
            &&& r.last_input == inputs.last()
            &&& r.last_target == targets.last()
        }),
{
    lemma_record_run(summary_start(mode, chunks_processed), inputs, targets, reports);
}

} // verus!

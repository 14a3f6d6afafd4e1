use vstd::prelude::*;
use vstd::string::*;

use std::convert::Infallible;

use crate::json::{
    items_view, members_view, parse_json, render_json, same_chars, DecodeError, Json, json_document, json_rebuilt, json_text, json_within, MAX_JSON_DEPTH,
    JsonView,
};
use crate::model::{GenerateResult, SettingsModel};
use crate::plugin::BottlerocketDefaults;
use crate::schemas::optional_bool;

verus! {

/// Why a value was refused by the bootstrap-command schema.
#[derive(Debug, PartialEq, Eq)]
pub enum SchemaError {
    /// A name holds a character other than ASCII letters, digits, `-` and `_`.
    InvalidIdentifier { input: String },
    /// A command is empty or does not start with `apiclient`.
    InvalidCommand,
    /// A mode other than `off`, `once` and `always`.
    InvalidMode { input: String },
    /// A node taint not of the form `value:Effect`.
    InvalidTaint { input: String },
    /// A node label key that is not a valid label key.
    InvalidLabelKey { input: String },
    /// A name that occurs twice in one mapping.
    DuplicateName { input: String },
}

/// The characters an identifier may hold.
pub open spec fn is_identifier_char(c: char) -> bool {
    ('a' <= c && c <= 'z') || ('A' <= c && c <= 'Z') || ('0' <= c && c <= '9') || c == '-'
        || c == '_'
}

pub open spec fn is_identifier(s: Seq<char>) -> bool {
    forall|i: int| 0 <= i < s.len() ==> is_identifier_char(#[trigger] s[i])
}

/// A name made of ASCII letters, digits, `-` and `_`.
#[derive(Debug, PartialEq, Eq)]
pub struct Identifier {
    inner: String,
}

impl View for Identifier {
    type V = Seq<char>;

    closed spec fn view(&self) -> Seq<char> {
        self.inner@
    }
}

impl Identifier {
    pub closed spec fn wf(&self) -> bool {
        is_identifier(self.inner@)
    }

    /// Checks `input` and keeps it as an identifier.
    pub fn new(input: &str) -> (r: Result<Identifier, SchemaError>)
        ensures
            r matches Ok(id) ==> id@ == input@ && id.wf(),
            r is Ok <==> is_identifier(input@),
            r matches Err(e) ==> e matches SchemaError::InvalidIdentifier { input: i } && i@ == input@,
    {
        let n = input.unicode_len();
        let mut i: usize = 0;
        while i < n
            invariant
                n == input@.len(),
                i <= n,
                forall|k: int| 0 <= k < i ==> is_identifier_char(#[trigger] input@[k]),
            decreases n - i,
        {
            let c = input.get_char(i);
            if !(('a' <= c && c <= 'z') || ('A' <= c && c <= 'Z') || ('0' <= c && c <= '9') || c
                == '-' || c == '_') {
                return Err(SchemaError::InvalidIdentifier { input: input.to_string() });
            }
            i = i + 1;
        }
        Ok(Identifier { inner: input.to_string() })
    }

    pub fn as_str(&self) -> (r: &str)
        ensures
            r@ == self@,
    {
        self.inner.as_str()
    }
}

/// The one program a bootstrap command may run.
pub open spec fn apiclient() -> Seq<char> {
    seq!['a', 'p', 'i', 'c', 'l', 'i', 'e', 'n', 't']
}

/// A command line that runs `apiclient`.
pub open spec fn is_apiclient_command(args: Seq<Seq<char>>) -> bool {
    args.len() >= 1 && args[0] == apiclient()
}

/// A command line whose program is `apiclient`, followed by its arguments.
#[derive(Debug, PartialEq, Eq)]
pub struct ApiclientCommand {
    args: Vec<String>,
}

/// The characters of each string of `v`.
pub open spec fn strings_view(v: Seq<String>) -> Seq<Seq<char>> {
    v.map_values(|s: String| s@)
}

impl View for ApiclientCommand {
    type V = Seq<Seq<char>>;

    closed spec fn view(&self) -> Seq<Seq<char>> {
        strings_view(self.args@)
    }
}

impl ApiclientCommand {
    /// Checks that `args` runs `apiclient` and keeps it.
    pub fn new(args: Vec<String>) -> (r: Result<ApiclientCommand, SchemaError>)
        ensures
            r matches Ok(c) ==> c@ == strings_view(args@),
            r is Ok <==> is_apiclient_command(strings_view(args@)),
            r matches Err(e) ==> e == SchemaError::InvalidCommand,
    {
        if args.len() == 0 {
            return Err(SchemaError::InvalidCommand);
        }
        proof {
            reveal_strlit("apiclient");
            assert("apiclient"@ =~= apiclient());
            assert(strings_view(args@)[0] == args@[0]@);
        }
        if !same_chars(args[0].as_str(), "apiclient") {
            return Err(SchemaError::InvalidCommand);
        }
        Ok(ApiclientCommand { args })
    }

    pub fn args(&self) -> (r: &Vec<String>)
        ensures
            strings_view(r@) == self@,
    {
        &self.args
    }
}

/// When a bootstrap command runs.
#[derive(Debug, PartialEq, Eq, Structural, Clone, Copy)]
pub enum BootstrapMode {
    Off,
    Once,
    Always,
}

/// The name of each mode.
pub open spec fn mode_name(m: BootstrapMode) -> Seq<char> {
    match m {
        BootstrapMode::Off => seq!['o', 'f', 'f'],
        BootstrapMode::Once => seq!['o', 'n', 'c', 'e'],
        BootstrapMode::Always => seq!['a', 'l', 'w', 'a', 'y', 's'],
    }
}

impl BootstrapMode {
    /// The mode that `input` names.
    pub fn parse(input: &str) -> (r: Result<BootstrapMode, SchemaError>)
        ensures
            r matches Ok(m) ==> mode_name(m) == input@,
            r is Ok <==> exists|m: BootstrapMode| mode_name(m) == input@,
            r matches Err(e) ==> e matches SchemaError::InvalidMode { input: i } && i@ == input@,
    {
        proof {
            reveal_strlit("off");
            reveal_strlit("once");
            reveal_strlit("always");
            assert("off"@ =~= mode_name(BootstrapMode::Off));
            assert("once"@ =~= mode_name(BootstrapMode::Once));
            assert("always"@ =~= mode_name(BootstrapMode::Always));
        }
        if same_chars(input, "off") {
            Ok(BootstrapMode::Off)
        } else if same_chars(input, "once") {
            Ok(BootstrapMode::Once)
        } else if same_chars(input, "always") {
            Ok(BootstrapMode::Always)
        } else {
            proof {
                assert forall|m: BootstrapMode| mode_name(m) != input@ by {
                    match m {
                        BootstrapMode::Off => assert(mode_name(m) == "off"@),
                        BootstrapMode::Once => assert(mode_name(m) == "once"@),
                        BootstrapMode::Always => assert(mode_name(m) == "always"@),
                    }
                }
            }
            Err(SchemaError::InvalidMode { input: input.to_string() })
        }
    }

    /// The name of this mode.
    pub fn as_str(&self) -> (r: &'static str)
        ensures
            r@ == mode_name(*self),
    {
        proof {
            reveal_strlit("off");
            reveal_strlit("once");
            reveal_strlit("always");
        }
        match self {
            BootstrapMode::Off => "off",
            BootstrapMode::Once => "once",
            BootstrapMode::Always => "always",
        }
    }
}

/// One bootstrap command: what it runs, when, and whether boot fails when
/// it fails. Every field may be missing.
#[derive(Debug, PartialEq, Eq)]
pub struct BootstrapCommand {
    pub commands: Option<Vec<ApiclientCommand>>,
    pub mode: Option<BootstrapMode>,
    pub essential: Option<bool>,
}

/// The model of a bootstrap command.
pub struct BootstrapCommandView {
    pub commands: Option<Seq<Seq<Seq<char>>>>,
    pub mode: Option<BootstrapMode>,
    pub essential: Option<bool>,
}

impl View for BootstrapCommand {
    type V = BootstrapCommandView;

    open spec fn view(&self) -> BootstrapCommandView {
        BootstrapCommandView {
            commands: match self.commands {
                Some(c) => Some(c@.map_values(|x: ApiclientCommand| x@)),
                None => None,
            },
            mode: self.mode,
            essential: self.essential,
        }
    }
}

/// The bootstrap commands, by name.
#[derive(Debug, PartialEq, Eq)]
pub struct BootstrapCommandsSettingsV1 {
    pub bootstrap_commands: Vec<(Identifier, BootstrapCommand)>,
}

impl View for BootstrapCommandsSettingsV1 {
    type V = Seq<(Seq<char>, BootstrapCommandView)>;

    open spec fn view(&self) -> Seq<(Seq<char>, BootstrapCommandView)> {
        self.bootstrap_commands@.map_values(|e: (Identifier, BootstrapCommand)| (e.0@, e.1@))
    }
}

impl Default for BootstrapCommandsSettingsV1 {
    fn default() -> (r: Self)
        ensures
            r@.len() == 0,
    {
        BootstrapCommandsSettingsV1 { bootstrap_commands: Vec::new() }
    }
}

impl BottlerocketDefaults for BootstrapCommandsSettingsV1 {
    open spec fn is_default_value(v: Self) -> bool {
        v@.len() == 0
    }

    fn defaults() -> (r: Self) {
        Self::default()
    }
}

impl SettingsModel for BootstrapCommandsSettingsV1 {
    type PartialKind = Self;

    type ErrorKind = Infallible;

    open spec fn version_tag() -> Seq<char> {
        seq!['v', '1']
    }

    open spec fn generates(
        existing_partial: Option<Self>,
        dependent_settings: Option<serde_json::Value>,
        r: Result<GenerateResult<Self, Self>, Infallible>,
    ) -> bool {
        match r {
            Ok(GenerateResult::Complete(v)) => match existing_partial {
                Some(p) => v == p,
                None => v@.len() == 0,
            },
            _ => false,
        }
    }

    open spec fn accepts(current_value: Option<Self>, target: Self) -> bool {
        true
    }

    open spec fn is_valid(value: Self, validated_settings: Option<serde_json::Value>) -> bool {
        true
    }

    fn get_version() -> (r: &'static str) {
        proof {
            reveal_strlit("v1");
        }
        "v1"
    }

    fn set(current_value: Option<Self>, target: Self) -> (r: Result<(), Infallible>) {
        Ok(())
    }

    fn generate(existing_partial: Option<Self>, dependent_settings: Option<serde_json::Value>) -> (r:
        Result<GenerateResult<Self, Self>, Infallible>) {
        match existing_partial {
            Some(p) => Ok(GenerateResult::Complete(p)),
            None => Ok(GenerateResult::Complete(Self::default())),
        }
    }

    fn validate(value: Self, validated_settings: Option<serde_json::Value>) -> (r: Result<
        (),
        Infallible,
    >) {
        Ok(())
    }
}

/// Producing the defaults of the bootstrap commands is repeatable: with
/// nothing known, every call completes with the empty set of commands.
pub proof fn lemma_bootstrap_commands_generate_repeatable(
    r1: Result<GenerateResult<BootstrapCommandsSettingsV1, BootstrapCommandsSettingsV1>, Infallible>,
    r2: Result<GenerateResult<BootstrapCommandsSettingsV1, BootstrapCommandsSettingsV1>, Infallible>,
)
    requires
        call_ensures(BootstrapCommandsSettingsV1::generate, (None, None), r1),
        call_ensures(BootstrapCommandsSettingsV1::generate, (None, None), r2),
    ensures
        r1 matches Ok(GenerateResult::Complete(v1)) && r2 matches Ok(GenerateResult::Complete(v2))
            && v1@ == v2@ && v1@.len() == 0,
{
    assert(r1 matches Ok(GenerateResult::Complete(v1)) && v1@.len() == 0);
    assert(r2 matches Ok(GenerateResult::Complete(v2)) && v2@.len() == 0);
    let v1 = r1->Ok_0->Complete_0;
    let v2 = r2->Ok_0->Complete_0;
    assert(v1@ =~= v2@);
}

/// The mode a name stands for.
pub open spec fn mode_of_name(s: Seq<char>) -> Option<BootstrapMode> {
    if s == mode_name(BootstrapMode::Off) {
        Some(BootstrapMode::Off)
    } else if s == mode_name(BootstrapMode::Once) {
        Some(BootstrapMode::Once)
    } else if s == mode_name(BootstrapMode::Always) {
        Some(BootstrapMode::Always)
    } else {
        None
    }
}

proof fn lemma_mode_of_name(s: Seq<char>)
    ensures
        mode_of_name(s) matches Some(m) ==> mode_name(m) == s,
        mode_of_name(s) is None ==> forall|m: BootstrapMode| mode_name(m) != s,
        forall|m: BootstrapMode| mode_name(m) == s ==> mode_of_name(s) == Some(m),
{
    assert(mode_name(BootstrapMode::Off) != mode_name(BootstrapMode::Once));
    assert(mode_name(BootstrapMode::Off) != mode_name(BootstrapMode::Always));
    assert(mode_name(BootstrapMode::Once) != mode_name(BootstrapMode::Always));
}

/// The strings of a JSON array, read in order; `None` when an item is not a
/// string.
pub open spec fn strings_of(items: Seq<JsonView>) -> Option<Seq<Seq<char>>>
    decreases items.len(),
{
    if items.len() == 0 {
        Some(Seq::empty())
    } else {
        match (strings_of(items.drop_last()), items.last()) {
            (Some(acc), JsonView::Str(s)) => Some(acc.push(s)),
            _ => None,
        }
    }
}

/// The command line a JSON value holds: an array of strings that runs
/// `apiclient`.
pub open spec fn command_of(v: JsonView) -> Option<Seq<Seq<char>>> {
    match v {
        JsonView::Array(items) => match strings_of(items) {
            Some(a) => if is_apiclient_command(a) {
                Some(a)
            } else {
                None
            },
            None => None,
        },
        _ => None,
    }
}

/// The command lines of a JSON array, read in order.
pub open spec fn commands_of(items: Seq<JsonView>) -> Option<Seq<Seq<Seq<char>>>>
    decreases items.len(),
{
    if items.len() == 0 {
        Some(Seq::empty())
    } else {
        match (commands_of(items.drop_last()), command_of(items.last())) {
            (Some(acc), Some(c)) => Some(acc.push(c)),
            _ => None,
        }
    }
}

/// The value of a `commands` member: `null`, or an array of command lines.
pub open spec fn commands_member(v: JsonView) -> Option<Option<Seq<Seq<Seq<char>>>>> {
    match v {
        JsonView::Null => Some(None),
        JsonView::Array(items) => match commands_of(items) {
            Some(c) => Some(Some(c)),
            None => None,
        },
        _ => None,
    }
}

/// The value of a `mode` member: `null`, or the name of a mode.
pub open spec fn mode_member(v: JsonView) -> Option<Option<BootstrapMode>> {
    match v {
        JsonView::Null => Some(None),
        JsonView::Str(s) => match mode_of_name(s) {
            Some(m) => Some(Some(m)),
            None => None,
        },
        _ => None,
    }
}

/// `acc` with the member `key: v` of a command read into it.
pub open spec fn command_member(acc: BootstrapCommandView, key: Seq<char>, v: JsonView) -> Option<
    BootstrapCommandView,
> {
    if key == "commands"@ {
        match commands_member(v) {
            Some(c) => Some(BootstrapCommandView { commands: c, ..acc }),
            None => None,
        }
    } else if key == "mode"@ {
        match mode_member(v) {
            Some(m) => Some(BootstrapCommandView { mode: m, ..acc }),
            None => None,
        }
    } else if key == "essential"@ {
        match optional_bool(v) {
            Some(e) => Some(BootstrapCommandView { essential: e, ..acc }),
            None => None,
        }
    } else {
        None
    }
}

/// The command with no field set.
pub open spec fn no_command() -> BootstrapCommandView {
    BootstrapCommandView { commands: None, mode: None, essential: None }
}

/// The command that the members `m` describe, read in order.
pub open spec fn command_members(m: Seq<(Seq<char>, JsonView)>) -> Option<BootstrapCommandView>
    decreases m.len(),
{
    if m.len() == 0 {
        Some(no_command())
    } else {
        match command_members(m.drop_last()) {
            Some(acc) => command_member(acc, m.last().0, m.last().1),
            None => None,
        }
    }
}

/// The command a JSON value describes.
pub open spec fn command_entry(v: JsonView) -> Option<BootstrapCommandView> {
    match v {
        JsonView::Object(m) => command_members(m),
        _ => None,
    }
}

/// The named commands that the members `m` describe, in order.
pub open spec fn bootstrap_members(m: Seq<(Seq<char>, JsonView)>) -> Option<
    Seq<(Seq<char>, BootstrapCommandView)>,
>
    decreases m.len(),
{
    if m.len() == 0 {
        Some(Seq::empty())
    } else {
        match (bootstrap_members(m.drop_last()), command_entry(m.last().1)) {
            (Some(acc), Some(c)) => if is_identifier(m.last().0) && !has_name(acc, m.last().0) {
                Some(acc.push((m.last().0, c)))
            } else {
                None
            },
            _ => None,
        }
    }
}

/// Some command of `s` is named `name`.
pub open spec fn has_name(s: Seq<(Seq<char>, BootstrapCommandView)>, name: Seq<char>) -> bool {
    exists|i: int| 0 <= i < s.len() && s[i].0 == name
}

/// No two commands of `s` share a name.
pub open spec fn names_unique(s: Seq<(Seq<char>, BootstrapCommandView)>) -> bool {
    forall|i: int, j: int| 0 <= i < j < s.len() ==> s[i].0 != s[j].0
}

/// The bootstrap commands that a JSON document describes: an object that
/// maps each name to a command.
pub open spec fn bootstrap_of_json(j: JsonView) -> Option<Seq<(Seq<char>, BootstrapCommandView)>> {
    match j {
        JsonView::Object(m) => bootstrap_members(m),
        _ => None,
    }
}

pub(crate) proof fn lemma_strings_refusal_extends(items: Seq<JsonView>, i: int)
    requires
        0 <= i <= items.len(),
        strings_of(items.take(i)) is None,
    ensures
        strings_of(items) is None,
    decreases items.len() - i,
{
    if i < items.len() {
        assert(items.take(i + 1).drop_last() =~= items.take(i));
        lemma_strings_refusal_extends(items, i + 1);
    } else {
        assert(items.take(i) =~= items);
    }
}

proof fn lemma_commands_refusal_extends(items: Seq<JsonView>, i: int)
    requires
        0 <= i <= items.len(),
        commands_of(items.take(i)) is None,
    ensures
        commands_of(items) is None,
    decreases items.len() - i,
{
    if i < items.len() {
        assert(items.take(i + 1).drop_last() =~= items.take(i));
        lemma_commands_refusal_extends(items, i + 1);
    } else {
        assert(items.take(i) =~= items);
    }
}

proof fn lemma_command_refusal_extends(m: Seq<(Seq<char>, JsonView)>, i: int)
    requires
        0 <= i <= m.len(),
        command_members(m.take(i)) is None,
    ensures
        command_members(m) is None,
    decreases m.len() - i,
{
    if i < m.len() {
        assert(m.take(i + 1).drop_last() =~= m.take(i));
        lemma_command_refusal_extends(m, i + 1);
    } else {
        assert(m.take(i) =~= m);
    }
}

proof fn lemma_bootstrap_refusal_extends(m: Seq<(Seq<char>, JsonView)>, i: int)
    requires
        0 <= i <= m.len(),
        bootstrap_members(m.take(i)) is None,
    ensures
        bootstrap_members(m) is None,
    decreases m.len() - i,
{
    if i < m.len() {
        assert(m.take(i + 1).drop_last() =~= m.take(i));
        lemma_bootstrap_refusal_extends(m, i + 1);
    } else {
        assert(m.take(i) =~= m);
    }
}

/// Reads a command line: an array of strings that runs `apiclient`.
fn command_from_json(v: &Json) -> (r: Result<ApiclientCommand, DecodeError>)
    ensures
        r matches Ok(c) ==> command_of(v@) == Some(c@),
        r is Err <==> command_of(v@) is None,
{
    let items = match v {
        Json::Array(items) => items,
        _ => {
            return Err(DecodeError::UnexpectedShape);
        },
    };
    let ghost iv = items_view(items@);
    let mut args: Vec<String> = Vec::new();
    let mut i: usize = 0;
    while i < items.len()
        invariant
            iv == items_view(items@),
            v@ == JsonView::Array(iv),
            i <= items@.len(),
            strings_of(iv.take(i as int)) == Some(strings_view(args@)),
        decreases items@.len() - i,
    {
        assert(iv.take(i + 1).drop_last() =~= iv.take(i as int));
        assert(iv[i as int] == items@[i as int]@);
        match &items[i] {
            Json::Str(s) => {
                let ghost before = strings_view(args@);
                args.push(s.clone());
                assert(strings_view(args@) =~= before.push(s@));
            },
            _ => {
                proof {
                    lemma_strings_refusal_extends(iv, i + 1);
                }
                return Err(DecodeError::UnexpectedShape);
            },
        }
        i = i + 1;
    }
    assert(iv.take(iv.len() as int) =~= iv);
    match ApiclientCommand::new(args) {
        Ok(c) => Ok(c),
        Err(e) => Err(DecodeError::Invalid(e)),
    }
}

/// The models of a sequence of command lines.
pub open spec fn command_lines_view(v: Seq<ApiclientCommand>) -> Seq<Seq<Seq<char>>> {
    v.map_values(|x: ApiclientCommand| x@)
}

/// Reads the value of a `commands` member.
fn commands_from_json(v: &Json) -> (r: Result<Option<Vec<ApiclientCommand>>, DecodeError>)
    ensures
        r matches Ok(c) ==> commands_member(v@) == Some(
            match c {
                Some(c) => Some(command_lines_view(c@)),
                None => None,
            },
        ),
        r is Err <==> commands_member(v@) is None,
{
    let items = match v {
        Json::Null => {
            return Ok(None);
        },
        Json::Array(items) => items,
        _ => {
            return Err(DecodeError::UnexpectedShape);
        },
    };
    let ghost iv = items_view(items@);
    let mut out: Vec<ApiclientCommand> = Vec::new();
    let mut i: usize = 0;
    while i < items.len()
        invariant
            iv == items_view(items@),
            v@ == JsonView::Array(iv),
            i <= items@.len(),
            commands_of(iv.take(i as int)) == Some(command_lines_view(out@)),
        decreases items@.len() - i,
    {
        assert(iv.take(i + 1).drop_last() =~= iv.take(i as int));
        assert(iv[i as int] == items@[i as int]@);
        match command_from_json(&items[i]) {
            Ok(c) => {
                let ghost before = command_lines_view(out@);
                let ghost cv = c@;
                out.push(c);
                assert(command_lines_view(out@) =~= before.push(cv));
            },
            Err(e) => {
                proof {
                    lemma_commands_refusal_extends(iv, i + 1);
                }
                return Err(e);
            },
        }
        i = i + 1;
    }
    assert(iv.take(iv.len() as int) =~= iv);
    Ok(Some(out))
}

impl BootstrapCommand {
    /// Reads a command from a JSON object with the members `commands`,
    /// `mode` and `essential`, each of which may be missing or `null`.
    pub fn from_json(v: &Json) -> (r: Result<BootstrapCommand, DecodeError>)
        ensures
            r matches Ok(c) ==> command_entry(v@) == Some(c@),
            r is Err <==> command_entry(v@) is None,
    {
        let members = match v {
            Json::Object(members) => members,
            _ => {
                return Err(DecodeError::UnexpectedShape);
            },
        };
        let ghost m = members_view(members@);
        let mut acc = BootstrapCommand { commands: None, mode: None, essential: None };
        assert(acc@ == no_command());
        let mut i: usize = 0;
        while i < members.len()
            invariant
                m == members_view(members@),
                v@ == JsonView::Object(m),
                i <= members@.len(),
                command_members(m.take(i as int)) == Some(acc@),
            decreases members@.len() - i,
        {
            let (k, x) = &members[i];
            assert(m.take(i + 1).drop_last() =~= m.take(i as int));
            assert(m[i as int] == (k@, x@));
            if same_chars(k.as_str(), "commands") {
                match commands_from_json(x) {
                    Ok(c) => {
                        acc.commands = c;
                    },
                    Err(e) => {
                        proof {
                            lemma_command_refusal_extends(m, i + 1);
                        }
                        return Err(e);
                    },
                }
            } else if same_chars(k.as_str(), "mode") {
                match x {
                    Json::Null => {
                        acc.mode = None;
                    },
                    Json::Str(s) => match BootstrapMode::parse(s.as_str()) {
                        Ok(mode) => {
                            proof {
                                lemma_mode_of_name(s@);
                            }
                            acc.mode = Some(mode);
                        },
                        Err(e) => {
                            proof {
                                lemma_mode_of_name(s@);
                                lemma_command_refusal_extends(m, i + 1);
                            }
                            return Err(DecodeError::Invalid(e));
                        },
                    },
                    _ => {
                        proof {
                            lemma_command_refusal_extends(m, i + 1);
                        }
                        return Err(DecodeError::UnexpectedShape);
                    },
                }
            } else if same_chars(k.as_str(), "essential") {
                match x {
                    Json::Null => {
                        acc.essential = None;
                    },
                    Json::Bool(b) => {
                        acc.essential = Some(*b);
                    },
                    _ => {
                        proof {
                            lemma_command_refusal_extends(m, i + 1);
                        }
                        return Err(DecodeError::UnexpectedShape);
                    },
                }
            } else {
                proof {
                    lemma_command_refusal_extends(m, i + 1);
                }
                return Err(DecodeError::UnknownField { name: k.clone() });
            }
            i = i + 1;
        }
        assert(m.take(m.len() as int) =~= m);
        Ok(acc)
    }
}

/// The JSON array of a command line.
pub open spec fn command_line_json(a: Seq<Seq<char>>) -> JsonView {
    JsonView::Array(a.map_values(|x: Seq<char>| JsonView::Str(x)))
}

/// The members of a command's JSON object: one for each field that is set,
/// in the order `commands`, `mode`, `essential`.
pub open spec fn command_members_of(c: BootstrapCommandView) -> Seq<(Seq<char>, JsonView)> {
    let m0: Seq<(Seq<char>, JsonView)> = match c.commands {
        Some(lines) => seq![
            ("commands"@, JsonView::Array(lines.map_values(|l: Seq<Seq<char>>| command_line_json(l)))),
        ],
        None => Seq::empty(),
    };
    let m1 = match c.mode {
        Some(m) => m0.push(("mode"@, JsonView::Str(mode_name(m)))),
        None => m0,
    };
    match c.essential {
        Some(e) => m1.push(("essential"@, JsonView::Bool(e))),
        None => m1,
    }
}

/// The JSON object of the named commands `s`.
pub open spec fn bootstrap_json(s: Seq<(Seq<char>, BootstrapCommandView)>) -> JsonView {
    JsonView::Object(
        s.map_values(
            |e: (Seq<char>, BootstrapCommandView)|
                (e.0, JsonView::Object(command_members_of(e.1))),
        ),
    )
}

impl ApiclientCommand {
    /// The JSON array of this command line.
    pub fn to_json(&self) -> (r: Json)
        ensures
            r@ == command_line_json(self@),
    {
        let args = self.args();
        let mut items: Vec<Json> = Vec::new();
        let mut i: usize = 0;
        while i < args.len()
            invariant
                strings_view(args@) == self@,
                i <= args@.len(),
                items_view(items@) =~= self@.take(i as int).map_values(|x: Seq<char>| JsonView::Str(x)),
            decreases args@.len() - i,
        {
            let ghost before = items_view(items@);
            items.push(Json::Str(args[i].clone()));
            proof {
                assert(self@[i as int] == args@[i as int]@);
                assert(items_view(items@) =~= before.push(JsonView::Str(self@[i as int])));
                assert(self@.take(i + 1).map_values(|x: Seq<char>| JsonView::Str(x))
                    =~= self@.take(i as int).map_values(|x: Seq<char>| JsonView::Str(x)).push(
                    JsonView::Str(self@[i as int]),
                ));
            }
            i = i + 1;
        }
        assert(self@.take(self@.len() as int) =~= self@);
        Json::Array(items)
    }
}

impl BootstrapCommand {
    /// The JSON object of this command: one member for each field that is
    /// set.
    pub fn to_json(&self) -> (r: Json)
        ensures
            r@ == JsonView::Object(command_members_of(self@)),
    {
        let mut members: Vec<(String, Json)> = Vec::new();
        proof {
            reveal_strlit("commands");
            reveal_strlit("mode");
            reveal_strlit("essential");
        }
        if let Some(lines) = &self.commands {
            let ghost lv = command_lines_view(lines@);
            let mut items: Vec<Json> = Vec::new();
            let mut i: usize = 0;
            while i < lines.len()
                invariant
                    lv == command_lines_view(lines@),
                    i <= lines@.len(),
                    items_view(items@) =~= lv.take(i as int).map_values(
                        |l: Seq<Seq<char>>| command_line_json(l),
                    ),
                decreases lines@.len() - i,
            {
                let ghost before = items_view(items@);
                let item = lines[i].to_json();
                items.push(item);
                proof {
                    assert(lv[i as int] == lines@[i as int]@);
                    assert(items_view(items@) =~= before.push(command_line_json(lv[i as int])));
                    assert(lv.take(i + 1).map_values(|l: Seq<Seq<char>>| command_line_json(l))
                        =~= lv.take(i as int).map_values(
                        |l: Seq<Seq<char>>| command_line_json(l),
                    ).push(command_line_json(lv[i as int])));
                }
                i = i + 1;
            }
            assert(lv.take(lv.len() as int) =~= lv);
            members.push(("commands".to_string(), Json::Array(items)));
        }
        let ghost m0 = members_view(members@);
        if let Some(mode) = self.mode {
            members.push(("mode".to_string(), Json::Str(mode.as_str().to_string())));
            assert(members_view(members@) =~= m0.push(("mode"@, JsonView::Str(mode_name(mode)))));
        }
        let ghost m1 = members_view(members@);
        if let Some(e) = self.essential {
            members.push(("essential".to_string(), Json::Bool(e)));
            assert(members_view(members@) =~= m1.push(("essential"@, JsonView::Bool(e))));
        }
        assert(members_view(members@) =~= command_members_of(self@));
        Json::Object(members)
    }
}

/// Whether some command of `out` is named `k`.
fn has_name_exec(out: &Vec<(Identifier, BootstrapCommand)>, k: &String) -> (r: bool)
    ensures
        r == has_name((BootstrapCommandsSettingsV1 { bootstrap_commands: *out })@, k@),
{
    let ghost v = (BootstrapCommandsSettingsV1 { bootstrap_commands: *out })@;
    let mut q: usize = 0;
    while q < out.len()
        invariant
            v == (BootstrapCommandsSettingsV1 { bootstrap_commands: *out })@,
            q <= out@.len(),
            forall|p: int| 0 <= p < q ==> v[p].0 != k@,
        decreases out@.len() - q,
    {
        if same_chars(out[q].0.as_str(), k.as_str()) {
            assert(v[q as int].0 == k@);
            return true;
        }
        q = q + 1;
    }
    false
}

impl BootstrapCommandsSettingsV1 {
    /// Reads the commands from a JSON object that maps each name to a
    /// command; names are identifiers and commands run `apiclient`.
    pub fn from_json(j: &Json) -> (r: Result<Self, DecodeError>)
        ensures
            r matches Ok(v) ==> bootstrap_of_json(j@) == Some(v@),
            r is Err <==> bootstrap_of_json(j@) is None,
    {
        let members = match j {
            Json::Object(members) => members,
            _ => {
                return Err(DecodeError::UnexpectedShape);
            },
        };
        let ghost m = members_view(members@);
        let mut out: Vec<(Identifier, BootstrapCommand)> = Vec::new();
        let mut i: usize = 0;
        while i < members.len()
            invariant
                m == members_view(members@),
                j@ == JsonView::Object(m),
                i <= members@.len(),
                bootstrap_members(m.take(i as int)) == Some(
                    (BootstrapCommandsSettingsV1 { bootstrap_commands: out })@,
                ),
            decreases members@.len() - i,
        {
            let (k, x) = &members[i];
            assert(m.take(i + 1).drop_last() =~= m.take(i as int));
            assert(m[i as int] == (k@, x@));
            let command = match BootstrapCommand::from_json(x) {
                Ok(c) => c,
                Err(e) => {
                    proof {
                        lemma_bootstrap_refusal_extends(m, i + 1);
                    }
                    return Err(e);
                },
            };
            let name = match Identifier::new(k.as_str()) {
                Ok(name) => name,
                Err(e) => {
                    proof {
                        lemma_bootstrap_refusal_extends(m, i + 1);
                    }
                    return Err(DecodeError::Invalid(e));
                },
            };
            let ghost before = (BootstrapCommandsSettingsV1 { bootstrap_commands: out })@;
            if has_name_exec(&out, k) {
                proof {
                    lemma_bootstrap_refusal_extends(m, i + 1);
                }
                return Err(DecodeError::Invalid(SchemaError::DuplicateName { input: k.clone() }));
            }
            let ghost entry = (name@, command@);
            out.push((name, command));
            assert((BootstrapCommandsSettingsV1 { bootstrap_commands: out })@ =~= before.push(entry));
            i = i + 1;
        }
        assert(m.take(m.len() as int) =~= m);
        Ok(BootstrapCommandsSettingsV1 { bootstrap_commands: out })
    }

    /// The JSON object of these commands, which maps each name to its
    /// command.
    pub fn to_json(&self) -> (r: Json)
        ensures
            r@ == bootstrap_json(self@),
    {
        let mut members: Vec<(String, Json)> = Vec::new();
        let mut i: usize = 0;
        while i < self.bootstrap_commands.len()
            invariant
                i <= self.bootstrap_commands@.len(),
                members_view(members@) =~= self@.take(i as int).map_values(
                    |e: (Seq<char>, BootstrapCommandView)|
                        (e.0, JsonView::Object(command_members_of(e.1))),
                ),
            decreases self.bootstrap_commands@.len() - i,
        {
            let (name, command) = &self.bootstrap_commands[i];
            let ghost before = members_view(members@);
            let item = command.to_json();
            members.push((name.as_str().to_string(), item));
            proof {
                let e = self@[i as int];
                assert(e == (name@, command@));
                let f = |e: (Seq<char>, BootstrapCommandView)|
                    (e.0, JsonView::Object(command_members_of(e.1)));
                assert(members_view(members@) =~= before.push(f(e)));
                assert(self@.take(i + 1).map_values(f) =~= self@.take(i as int).map_values(f).push(
                    f(e),
                ));
            }
            i = i + 1;
        }
        assert(self@.take(self@.len() as int) =~= self@);
        Json::Object(members)
    }

    /// Reads the commands from JSON text: the text must be a JSON document,
    /// nested at most `MAX_JSON_DEPTH` levels deep, that the schema accepts.
    pub fn deserialize(text: &str) -> (r: Result<Self, DecodeError>)
        ensures
            r matches Ok(v) ==> (json_document(text@) matches Some(j) && bootstrap_of_json(j) == Some(v@)),
            r is Ok <==> (json_document(text@) matches Some(j) && json_within(j, MAX_JSON_DEPTH as nat)
                && bootstrap_of_json(j) is Some),
    {
        match parse_json(text) {
            Ok(j) => Self::from_json(&j),
            Err(e) => Err(DecodeError::Json(e)),
        }
    }

    /// Renders the commands as JSON text.
    pub fn serialize(&self) -> (r: String)
        ensures
            r@ == json_text(json_rebuilt(bootstrap_json(self@))),
    {
        render_json(self.to_json())
    }
}

/// Every command line of `c` runs `apiclient`.
pub open spec fn command_ok(c: BootstrapCommandView) -> bool {
    c.commands matches Some(lines) ==> forall|i: int|
        0 <= i < lines.len() ==> is_apiclient_command(#[trigger] lines[i])
}

/// Every name of `s` is an identifier and every command line runs
/// `apiclient`.
pub open spec fn settings_ok(s: Seq<(Seq<char>, BootstrapCommandView)>) -> bool {
    &&& forall|i: int| 0 <= i < s.len() ==> is_identifier(#[trigger] s[i].0) && command_ok(s[i].1)
    &&& names_unique(s)
}

proof fn lemma_strings_of_written(l: Seq<Seq<char>>)
    ensures
        strings_of(l.map_values(|x: Seq<char>| JsonView::Str(x))) == Some(l),
    decreases l.len(),
{
    let w = l.map_values(|x: Seq<char>| JsonView::Str(x));
    if l.len() > 0 {
        assert(w.drop_last() =~= l.drop_last().map_values(|x: Seq<char>| JsonView::Str(x)));
        lemma_strings_of_written(l.drop_last());
        assert(l.drop_last().push(l.last()) =~= l);
    } else {
        assert(l =~= Seq::<Seq<char>>::empty());
    }
}

proof fn lemma_commands_of_read(items: Seq<JsonView>)
    requires
        commands_of(items) is Some,
    ensures
        forall|i: int|
            0 <= i < commands_of(items)->Some_0.len() ==> is_apiclient_command(
                #[trigger] commands_of(items)->Some_0[i],
            ),
    decreases items.len(),
{
    if items.len() > 0 {
        lemma_commands_of_read(items.drop_last());
    }
}

proof fn lemma_commands_of_written(lines: Seq<Seq<Seq<char>>>)
    requires
        forall|i: int| 0 <= i < lines.len() ==> is_apiclient_command(#[trigger] lines[i]),
    ensures
        commands_of(lines.map_values(|l: Seq<Seq<char>>| command_line_json(l))) == Some(lines),
    decreases lines.len(),
{
    let w = lines.map_values(|l: Seq<Seq<char>>| command_line_json(l));
    if lines.len() > 0 {
        assert(w.drop_last() =~= lines.drop_last().map_values(
            |l: Seq<Seq<char>>| command_line_json(l),
        ));
        lemma_commands_of_written(lines.drop_last());
        lemma_strings_of_written(lines.last());
        assert(is_apiclient_command(lines[lines.len() - 1]));
        assert(lines.drop_last().push(lines.last()) =~= lines);
    } else {
        assert(lines =~= Seq::<Seq<Seq<char>>>::empty());
    }
}

proof fn lemma_command_members_read(m: Seq<(Seq<char>, JsonView)>)
    requires
        command_members(m) is Some,
    ensures
        command_ok(command_members(m)->Some_0),
    decreases m.len(),
{
    if m.len() > 0 {
        lemma_command_members_read(m.drop_last());
        let v = m.last().1;
        if m.last().0 == "commands"@ {
            if let JsonView::Array(items) = v {
                lemma_commands_of_read(items);
            }
        }
    }
}

proof fn lemma_command_members_written(c: BootstrapCommandView)
    requires
        command_ok(c),
    ensures
        command_members(command_members_of(c)) == Some(c),
{
    reveal_strlit("commands");
    reveal_strlit("mode");
    reveal_strlit("essential");
    let m = command_members_of(c);
    let m0: Seq<(Seq<char>, JsonView)> = match c.commands {
        Some(lines) => seq![
            ("commands"@, JsonView::Array(lines.map_values(|l: Seq<Seq<char>>| command_line_json(l)))),
        ],
        None => Seq::empty(),
    };
    let m1 = match c.mode {
        Some(md) => m0.push(("mode"@, JsonView::Str(mode_name(md)))),
        None => m0,
    };
    let c0 = BootstrapCommandView { commands: c.commands, ..no_command() };
    let c1 = BootstrapCommandView { mode: c.mode, ..c0 };
    assert(command_members(Seq::<(Seq<char>, JsonView)>::empty()) == Some(no_command()));
    if let Some(lines) = c.commands {
        lemma_commands_of_written(lines);
        assert(m0.drop_last() =~= Seq::<(Seq<char>, JsonView)>::empty());
    }
    assert(command_members(m0) == Some(c0));
    if let Some(md) = c.mode {
        lemma_mode_of_name(mode_name(md));
        assert(m1.drop_last() =~= m0);
        assert("mode"@.len() != "commands"@.len());
    }
    assert(command_members(m1) == Some(c1));
    if let Some(e) = c.essential {
        assert(m.drop_last() =~= m1);
        assert("essential"@.len() != "commands"@.len());
        assert("essential"@.len() != "mode"@.len());
    }
}

proof fn lemma_bootstrap_members_read(m: Seq<(Seq<char>, JsonView)>)
    requires
        bootstrap_members(m) is Some,
    ensures
        settings_ok(bootstrap_members(m)->Some_0),
    decreases m.len(),
{
    if m.len() > 0 {
        lemma_bootstrap_members_read(m.drop_last());
        if let JsonView::Object(cm) = m.last().1 {
            lemma_command_members_read(cm);
        }
        let s = bootstrap_members(m)->Some_0;
        let s0 = bootstrap_members(m.drop_last())->Some_0;
        assert forall|i: int| 0 <= i < s.len() implies is_identifier(#[trigger] s[i].0) && command_ok(
            s[i].1,
        ) by {
            if i < s0.len() {
                assert(s[i] == s0[i]);
            }
        }
    }
}

proof fn lemma_bootstrap_members_written(s: Seq<(Seq<char>, BootstrapCommandView)>)
    requires
        settings_ok(s),
    ensures
        bootstrap_members(bootstrap_json(s)->Object_0) == Some(s),
    decreases s.len(),
{
    let f = |e: (Seq<char>, BootstrapCommandView)| (e.0, JsonView::Object(command_members_of(e.1)));
    let w = s.map_values(f);
    assert(bootstrap_json(s)->Object_0 == w);
    if s.len() > 0 {
        let init = s.drop_last();
        assert forall|i: int| 0 <= i < init.len() implies is_identifier(#[trigger] init[i].0)
            && command_ok(init[i].1) by {
            assert(init[i] == s[i]);
        }
        lemma_bootstrap_members_written(init);
        assert(w.drop_last() =~= init.map_values(f));
        assert(is_identifier(s[s.len() - 1].0) && command_ok(s[s.len() - 1].1));
        lemma_command_members_written(s.last().1);
        assert(init.push(s.last()) =~= s);
    } else {
        assert(s =~= Seq::<(Seq<char>, BootstrapCommandView)>::empty());
    }
}

/// Writing out bootstrap commands that were read from a JSON document, or
/// the empty set of commands that the defaults give, and reading them back
/// gives the same commands.
pub proof fn lemma_bootstrap_round_trip(j: JsonView, s: Seq<(Seq<char>, BootstrapCommandView)>)
    requires
        bootstrap_of_json(j) == Some(s),
    ensures
        bootstrap_of_json(bootstrap_json(s)) == Some(s),
        bootstrap_of_json(bootstrap_json(Seq::empty())) == Some(
            Seq::<(Seq<char>, BootstrapCommandView)>::empty(),
        ),
{
    if let JsonView::Object(m) = j {
        lemma_bootstrap_members_read(m);
    }
    lemma_bootstrap_members_written(s);
    lemma_bootstrap_members_written(Seq::empty());
}

/// One refused command refuses the whole set: when any named command of a
/// JSON object is not a valid command (say, a command line that does not
/// run `apiclient`), the object describes no bootstrap commands at all, and
/// no entry is silently dropped.
pub proof fn lemma_one_bad_command_refuses_all(m: Seq<(Seq<char>, JsonView)>, k: int)
    requires
        0 <= k < m.len(),
        command_entry(m[k].1) is None,
    ensures
        bootstrap_of_json(JsonView::Object(m)) is None,
{
    assert(m.take(k + 1).drop_last() =~= m.take(k));
    assert(m.take(k + 1).last() == m[k]);
    lemma_bootstrap_refusal_extends(m, k + 1);
}

} // verus!

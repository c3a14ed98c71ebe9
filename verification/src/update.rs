//! Self-update support: read the newest published release from the registry's
//! answer and decide whether to reinstall.
//!
//! Running commands is the caller's part. Every failure becomes a message.

use std::cmp::Ordering;

use vstd::prelude::*;
use vstd::string::*;

use crate::text;

verus! {

/// Metadata endpoint for the `dsopt` crate on crates.io.
pub const CRATE_API: &'static str = "https://crates.io/api/v1/crates/dsopt";

/// The version of this release.
pub const VERSION: &'static str = "0.1.0";

// ------------------------------------------------------------------ versions

/// `text` up to the first `-` or `+`.
pub open spec fn before_suffix(text: Seq<char>) -> Seq<char>
    decreases text.len(),
{
    if text.len() == 0 || text.first() == '-' || text.first() == '+' {
        Seq::empty()
    } else {
        seq![text.first()] + before_suffix(text.drop_first())
    }
}

/// The dotted pieces of a version, without white space around it, without
/// leading `v`s and without a pre-release or build suffix.
pub open spec fn version_pieces(text: Seq<char>) -> Seq<Seq<char>> {
    text::split_on(before_suffix(text::without_leading(text::trimmed(text), 'v')), '.')
}

/// The number in a piece of a version; a piece that is not there counts as 0.
pub open spec fn version_number(pieces: Seq<Seq<char>>, index: int) -> Option<nat> {
    if index < pieces.len() {
        text::number(pieces[index], u64::MAX as nat)
    } else {
        Some(0)
    }
}

/// The `(major, minor, patch)` that `text` writes, if it writes one.
pub open spec fn version(text: Seq<char>) -> Option<(nat, nat, nat)> {
    let pieces = version_pieces(text);
    match (version_number(pieces, 0), version_number(pieces, 1), version_number(pieces, 2)) {
        (Some(major), Some(minor), Some(patch)) => Some((major, minor, patch)),
        _ => None,
    }
}

/// Whether version `left` is older than version `right`.
pub open spec fn is_older(left: (nat, nat, nat), right: (nat, nat, nat)) -> bool {
    left.0 < right.0 || (left.0 == right.0 && (left.1 < right.1 || (left.1 == right.1 && left.2
        < right.2)))
}

/// Whether version text `left` is newer than version text `right`. Texts that
/// write no version are neither newer nor older than any other.
pub open spec fn is_newer_text(left: Seq<char>, right: Seq<char>) -> bool {
    match (version(left), version(right)) {
        (Some(l), Some(r)) => is_older(r, l),
        _ => false,
    }
}

/// Cuts `chars` off before the first `-` or `+`.
fn cut_suffix(chars: &mut Vec<char>)
    ensures
        final(chars)@ == before_suffix(old(chars)@),
{
    let mut end: usize = 0;
    assert(chars@.skip(0) =~= chars@);
    assert(chars@.take(0) + before_suffix(chars@.skip(0)) =~= before_suffix(chars@));
    while end < chars.len() && chars[end] != '-' && chars[end] != '+'
        invariant
            end <= chars@.len(),
            before_suffix(chars@) == chars@.take(end as int) + before_suffix(
                chars@.skip(end as int),
            ),
        decreases chars@.len() - end,
    {
        let ghost rest = chars@.skip(end as int);
        assert(rest.drop_first() =~= chars@.skip(end + 1));
        assert(chars@.take(end + 1) + before_suffix(chars@.skip(end + 1)) =~= chars@.take(
            end as int,
        ) + before_suffix(rest));
        end = end + 1;
    }
    assert(before_suffix(chars@.skip(end as int)) =~= Seq::<char>::empty());
    assert(chars@.take(end as int) + Seq::<char>::empty() =~= chars@.take(end as int));
    chars.truncate(end);
}

/// Reads the number in a piece of a version.
fn piece_number(pieces: &Vec<Vec<char>>, index: usize) -> (number: Option<u64>)
    ensures
        match number {
            Some(n) => version_number(
                pieces@.map_values(|piece: Vec<char>| piece@),
                index as int,
            ) == Some(n as nat),
            None => version_number(
                pieces@.map_values(|piece: Vec<char>| piece@),
                index as int,
            ) is None,
        },
{
    if index < pieces.len() {
        text::parse_number(&pieces[index], u64::MAX)
    } else {
        Some(0)
    }
}

/// Parses a `major.minor.patch` version, ignoring any pre-release suffix.
pub fn parse_version(text: &str) -> (parsed: Option<(u64, u64, u64)>)
    ensures
        match parsed {
            Some(numbers) => version(text@) == Some(
                (numbers.0 as nat, numbers.1 as nat, numbers.2 as nat),
            ),
            None => version(text@) is None,
        },
{
    let mut core: Vec<char> = text::trim_leading(&text::trim(&text::chars_of(text)), 'v');
    cut_suffix(&mut core);
    let pieces: Vec<Vec<char>> = text::split(&core, '.');
    assert(pieces@.map_values(|piece: Vec<char>| piece@) =~= version_pieces(text@));
    let major: u64 = match piece_number(&pieces, 0) {
        Some(number) => number,
        None => {
            return None;
        },
    };
    let minor: u64 = match piece_number(&pieces, 1) {
        Some(number) => number,
        None => {
            return None;
        },
    };
    let patch: u64 = match piece_number(&pieces, 2) {
        Some(number) => number,
        None => {
            return None;
        },
    };
    Some((major, minor, patch))
}

/// Compares two versions, treating text that writes no version as equal.
pub fn compare_versions(left: &str, right: &str) -> (order: Ordering)
    ensures
        order == Ordering::Greater <==> is_newer_text(left@, right@),
        order == Ordering::Less <==> is_newer_text(right@, left@),
        order == Ordering::Equal <==> version(left@) is None || version(right@) is None || version(
            left@,
        ) == version(right@),
{
    match (parse_version(left), parse_version(right)) {
        (Some(l), Some(r)) => {
            if l.0 != r.0 {
                if l.0 < r.0 {
                    Ordering::Less
                } else {
                    Ordering::Greater
                }
            } else if l.1 != r.1 {
                if l.1 < r.1 {
                    Ordering::Less
                } else {
                    Ordering::Greater
                }
            } else if l.2 != r.2 {
                if l.2 < r.2 {
                    Ordering::Less
                } else {
                    Ordering::Greater
                }
            } else {
                Ordering::Equal
            }
        },
        _ => Ordering::Equal,
    }
}

/// Whether `candidate` is strictly newer than `current`.
pub fn is_newer(candidate: &str, current: &str) -> (newer: bool)
    ensures
        newer == is_newer_text(candidate@, current@),
{
    match compare_versions(candidate, current) {
        Ordering::Greater => true,
        _ => false,
    }
}

/// The running program's version.
pub fn current_version() -> (version: &'static str)
    ensures
        version@ == VERSION@,
{
    VERSION
}

/// No version is newer than itself, of two versions at most one is newer, and
/// newer than newer is newer.
pub proof fn law_newer_is_an_order(a: Seq<char>, b: Seq<char>, c: Seq<char>)
    ensures
        !is_newer_text(a, a),
        !(is_newer_text(a, b) && is_newer_text(b, a)),
        is_newer_text(a, b) && is_newer_text(b, c) ==> is_newer_text(a, c),
{
}

proof fn lemma_suffix_cut(core: Seq<char>, suffix: Seq<char>)
    requires
        suffix.len() > 0,
        suffix.first() == '-' || suffix.first() == '+',
    ensures
        before_suffix(core + suffix) == before_suffix(core),
    decreases core.len(),
{
    if core.len() == 0 {
        assert(core + suffix =~= suffix);
    } else if core.first() != '-' && core.first() != '+' {
        lemma_suffix_cut(core.drop_first(), suffix);
        assert((core + suffix).drop_first() =~= core.drop_first() + suffix);
    }
}

proof fn lemma_trim_start(core: Seq<char>, suffix: Seq<char>)
    requires
        suffix.len() > 0,
        !text::is_white_space(suffix.first()),
    ensures
        text::trimmed_start(core + suffix) == text::trimmed_start(core) + suffix,
        text::trimmed_start(core).len() > 0 ==> text::trimmed_start(core).last() == core.last(),
    decreases core.len(),
{
    if core.len() == 0 {
        assert(core + suffix =~= suffix);
    } else if text::is_white_space(core.first()) {
        lemma_trim_start(core.drop_first(), suffix);
        assert((core + suffix).drop_first() =~= core.drop_first() + suffix);
    }
}

proof fn lemma_trim_end(core: Seq<char>, suffix: Seq<char>)
    requires
        suffix.len() > 0,
        !text::is_white_space(suffix.first()),
    ensures
        text::trimmed_end(core + suffix) == core + text::trimmed_end(suffix),
        text::trimmed_end(suffix).len() > 0,
        text::trimmed_end(suffix).first() == suffix.first(),
    decreases suffix.len(),
{
    if text::is_white_space(suffix.last()) {
        lemma_trim_end(core, suffix.drop_last());
        assert((core + suffix).drop_last() =~= core + suffix.drop_last());
    }
}

/// What follows the first `-` or `+` of a version does not count, as long as
/// no white space separates it from the version.
pub proof fn law_suffix_does_not_count(core: Seq<char>, suffix: Seq<char>)
    requires
        suffix.len() > 0,
        suffix.first() == '-' || suffix.first() == '+',
        core.len() > 0 ==> !text::is_white_space(core.last()),
    ensures
        version(core + suffix) == version(core),
{
    lemma_trim_start(core, suffix);
    let start = text::trimmed_start(core);
    lemma_trim_end(start, suffix);
    let rest = text::trimmed_end(suffix);
    assert(text::trimmed(core) == start);
    lemma_without_leading(start, rest);
    lemma_suffix_cut(text::without_leading(start, 'v'), rest);
}

proof fn lemma_without_leading(core: Seq<char>, suffix: Seq<char>)
    requires
        suffix.len() > 0,
        suffix.first() != 'v',
    ensures
        text::without_leading(core + suffix, 'v') == text::without_leading(core, 'v') + suffix,
    decreases core.len(),
{
    if core.len() > 0 && core.first() == 'v' {
        lemma_without_leading(core.drop_first(), suffix);
        assert((core + suffix).drop_first() =~= core.drop_first() + suffix);
    } else if core.len() == 0 {
        assert(core + suffix =~= suffix);
    }
}

/// A leading `v` does not count, as long as no white space follows it.
pub proof fn law_leading_v_does_not_count(text: Seq<char>)
    requires
        text.len() > 0 ==> !text::is_white_space(text.first()),
    ensures
        version(seq!['v'] + text) == version(text),
{
    let whole = seq!['v'] + text;
    assert(text::trimmed_start(whole) == whole);
    assert(text::trimmed_start(text) == text);
    if text.len() > 0 {
        lemma_trim_end(seq!['v'], text);
    } else {
        assert(whole =~= seq!['v']);
        assert(seq!['v'] + text =~= whole);
    }
    let rest = text::trimmed_end(text);
    assert((seq!['v'] + rest).drop_first() =~= rest);
}

/// Whether `text` is white space throughout.
pub open spec fn is_blank(text: Seq<char>) -> bool {
    forall|i: int| 0 <= i < text.len() ==> text::is_white_space(#[trigger] text[i])
}

proof fn lemma_blank_start(blank: Seq<char>, text: Seq<char>)
    requires
        is_blank(blank),
    ensures
        text::trimmed_start(blank + text) == text::trimmed_start(text),
    decreases blank.len(),
{
    if blank.len() == 0 {
        assert(blank + text =~= text);
    } else {
        assert(text::is_white_space(blank[0]));
        assert((blank + text).drop_first() =~= blank.drop_first() + text);
        assert(is_blank(blank.drop_first())) by {
            assert forall|i: int| 0 <= i < blank.len() - 1 implies text::is_white_space(
                #[trigger] blank.drop_first()[i],
            ) by {
                assert(text::is_white_space(blank[i + 1]));
            }
        }
        lemma_blank_start(blank.drop_first(), text);
    }
}

proof fn lemma_blank_end(text: Seq<char>, blank: Seq<char>)
    requires
        is_blank(blank),
    ensures
        text::trimmed_end(text + blank) == text::trimmed_end(text),
    decreases blank.len(),
{
    if blank.len() == 0 {
        assert(text + blank =~= text);
    } else {
        assert(text::is_white_space(blank[blank.len() - 1]));
        assert((text + blank).drop_last() =~= text + blank.drop_last());
        assert(is_blank(blank.drop_last())) by {
            assert forall|i: int| 0 <= i < blank.len() - 1 implies text::is_white_space(
                #[trigger] blank.drop_last()[i],
            ) by {
                assert(text::is_white_space(blank[i]));
            }
        }
        lemma_blank_end(text, blank.drop_last());
    }
}

proof fn lemma_start_keeps_end(text: Seq<char>, blank: Seq<char>)
    requires
        is_blank(blank),
    ensures
        text::trimmed_end(text::trimmed_start(text + blank)) == text::trimmed_end(
            text::trimmed_start(text),
        ),
    decreases text.len(),
{
    if text.len() > 0 && text::is_white_space(text.first()) {
        assert((text + blank).drop_first() =~= text.drop_first() + blank);
        lemma_start_keeps_end(text.drop_first(), blank);
    } else if text.len() > 0 {
        lemma_blank_end(text, blank);
    } else {
        let none = Seq::<char>::empty();
        assert(text =~= none);
        assert(text + blank =~= blank + none);
        lemma_blank_start(blank, none);
    }
}

/// White space around a version does not count.
pub proof fn law_outer_white_space_does_not_count(
    before: Seq<char>,
    text: Seq<char>,
    after: Seq<char>,
)
    requires
        is_blank(before),
        is_blank(after),
    ensures
        version(before + text + after) == version(text),
{
    assert(before + text + after =~= before + (text + after));
    lemma_blank_start(before, text + after);
    lemma_start_keeps_end(text, after);
}

// ----------------------------------------------------------- registry answer

/// A JSON value of the registry's answer.
#[verifier::external_type_specification]
#[verifier::external_body]
pub struct ExJsonValue(serde_json::Value);

/// A failure to read JSON.
#[verifier::external_type_specification]
#[verifier::external_body]
pub struct ExJsonError(serde_json::Error);

/// What a JSON value holds, as far as the contracts speak of it.
pub enum Json {
    /// An object, by the names of its members.
    Object(Map<Seq<char>, Json>),
    /// A string.
    Text(Seq<char>),
    /// `null`.
    Null,
    /// Any other value.
    Other,
}

/// What JSON text stands for, or the message of why it cannot be read.
pub uninterp spec fn json_document(bytes: Seq<u8>) -> Result<Json, Seq<char>>;

/// What a JSON value holds.
pub uninterp spec fn json_value(value: serde_json::Value) -> Json;

/// The message of a failure to read JSON.
pub uninterp spec fn json_failure(error: serde_json::Error) -> Seq<char>;

/// The member of that name, and `null` where there is none.
pub open spec fn member_of(value: Json, name: Seq<char>) -> Json {
    match value {
        Json::Object(members) => if members.dom().contains(name) {
            members[name]
        } else {
            Json::Null
        },
        _ => Json::Null,
    }
}

/// The text of a string; none for any other value.
pub open spec fn text_of(value: Json) -> Option<Seq<char>> {
    match value {
        Json::Text(text) => Some(text),
        _ => None,
    }
}

/// Calls `serde_json::from_slice`. Claimed of it: the bytes determine what the
/// value holds, or the message of the failure.
#[verifier::external_body]
fn read_json(bytes: &[u8]) -> (outcome: Result<serde_json::Value, serde_json::Error>)
    ensures
        json_document(bytes@) == match outcome {
            Ok(value) => Ok(json_value(value)),
            Err(error) => Err(json_failure(error)),
        },
{
    serde_json::from_slice(bytes)
}

/// Indexes a `serde_json::Value` by a member's name. Claimed of it: the result
/// is that member of an object, and `null` where there is no such member or
/// the value is no object.
#[verifier::external_body]
fn json_member<'a>(value: &'a serde_json::Value, name: &str) -> (member: &'a serde_json::Value)
    ensures
        json_value(*member) == member_of(json_value(*value), name@),
{
    &value[name]
}

/// Calls `serde_json::Value::as_str`. Claimed of it: the result is the text of
/// a string, and nothing for any other value.
#[verifier::external_body]
fn json_text(value: &serde_json::Value) -> (text: Option<&str>)
    ensures
        text::optional_text(text) == text_of(json_value(*value)),
{
    value.as_str()
}

/// Calls `to_string` on a `serde_json::Error`. Claimed of it: the message is
/// determined by the error.
#[verifier::external_body]
fn json_failure_text(error: &serde_json::Error) -> (message: String)
    ensures
        message@ == json_failure(*error),
{
    error.to_string()
}

/// The string under two nested member names.
pub open spec fn string_under(value: Json, outer: Seq<char>, inner: Seq<char>) -> Option<Seq<char>> {
    text_of(member_of(member_of(value, outer), inner))
}

/// The newest stable version, else the newest version of all.
pub open spec fn chosen_version(stable: Option<Seq<char>>, newest: Option<Seq<char>>) -> Result<
    Seq<char>,
    Seq<char>,
> {
    match (stable, newest) {
        (Some(version), _) => Ok(version),
        (None, Some(version)) => Ok(version),
        (None, None) => Err("crates.io response did not include a version"@),
    }
}

/// What the registry's answer says of the newest version.
pub open spec fn answered_version(body: Seq<u8>) -> Result<Seq<char>, Seq<char>> {
    match json_document(body) {
        Ok(value) => chosen_version(
            string_under(value, "crate"@, "max_stable_version"@),
            string_under(value, "crate"@, "max_version"@),
        ),
        Err(message) => Err("unexpected crates.io response: "@ + message),
    }
}

/// Picks the version to go by.
pub fn choose_version(stable: Option<&str>, newest: Option<&str>) -> (version: Result<
    String,
    String,
>)
    ensures
        text::outcome_text(version) == chosen_version(
            text::optional_text(stable),
            text::optional_text(newest),
        ),
{
    match (stable, newest) {
        (Some(version), _) => Ok(version.to_owned()),
        (None, Some(version)) => Ok(version.to_owned()),
        (None, None) => Err("crates.io response did not include a version".to_owned()),
    }
}

/// Reads the newest version from the registry's answer.
pub fn version_in_answer(body: &[u8]) -> (version: Result<String, String>)
    ensures
        text::outcome_text(version) == answered_version(body@),
{
    match read_json(body) {
        Ok(value) => {
            let crate_member: &serde_json::Value = json_member(&value, "crate");
            let stable: &serde_json::Value = json_member(crate_member, "max_stable_version");
            let newest: &serde_json::Value = json_member(crate_member, "max_version");
            choose_version(json_text(stable), json_text(newest))
        },
        Err(error) => {
            let mut message: String = "unexpected crates.io response: ".to_owned();
            message.append(json_failure_text(&error).as_str());
            Err(message)
        },
    }
}

// ------------------------------------------------------------------ commands

/// What became of a command.
pub enum CommandOutcome {
    /// It could not be started; the text says why.
    NotStarted(String),
    /// It ran.
    Exited {
        success: bool,
        /// The exit status in words.
        status: String,
        /// What the command wrote.
        output: Vec<u8>,
    },
}

/// The newest published version that an outcome of the lookup command gives.
pub open spec fn looked_up_version(outcome: CommandOutcome) -> Result<Seq<char>, Seq<char>> {
    match outcome {
        CommandOutcome::NotStarted(error) => Err("could not run curl: "@ + error@),
        CommandOutcome::Exited { success, status, output } => if success {
            answered_version(output@)
        } else {
            Err(
                "crates.io lookup failed ("@ + status@ + "); check your network connection"@,
            )
        },
    }
}

/// What an outcome of the install command comes to.
pub open spec fn installed(outcome: CommandOutcome) -> Result<(), Seq<char>> {
    match outcome {
        CommandOutcome::NotStarted(error) => Err(
            "could not run cargo: "@ + error@ + ". Install Rust from https://rustup.rs"@,
        ),
        CommandOutcome::Exited { success, status, output } => if success {
            Ok(())
        } else {
            Err("cargo install exited with "@ + status@)
        },
    }
}

/// The `User-Agent` of the lookup. The registry refuses requests without one.
pub fn user_agent() -> (agent: String)
    ensures
        agent@ == "dsopt/"@ + VERSION@,
{
    let mut agent: String = "dsopt/".to_owned();
    agent.append(current_version());
    agent
}

/// Takes the newest published version of `dsopt` from the lookup command.
pub fn latest_version(lookup: CommandOutcome) -> (latest: Result<String, String>)
    ensures
        text::outcome_text(latest) == looked_up_version(lookup),
{
    match lookup {
        CommandOutcome::NotStarted(error) => {
            let mut message: String = "could not run curl: ".to_owned();
            message.append(error.as_str());
            Err(message)
        },
        CommandOutcome::Exited { success, status, output } => {
            if success {
                version_in_answer(&output)
            } else {
                let mut message: String = "crates.io lookup failed (".to_owned();
                message.append(status.as_str());
                message.append("); check your network connection");
                Err(message)
            }
        },
    }
}

/// Takes the outcome of the command that reinstalls `dsopt`.
pub fn install_latest(install: CommandOutcome) -> (outcome: Result<(), String>)
    ensures
        text::outcome_message(outcome) == installed(install),
{
    match install {
        CommandOutcome::NotStarted(error) => {
            let mut message: String = "could not run cargo: ".to_owned();
            message.append(error.as_str());
            message.append(". Install Rust from https://rustup.rs");
            Err(message)
        },
        CommandOutcome::Exited { success, status, output: _ } => {
            if success {
                Ok(())
            } else {
                let mut message: String = "cargo install exited with ".to_owned();
                message.append(status.as_str());
                Err(message)
            }
        },
    }
}

// ------------------------------------------------------------------- updating

/// What an update did.
#[derive(Clone, Debug, PartialEq, Eq)]
pub enum UpdateOutcome {
    /// The running version is already the newest published release.
    AlreadyLatest { current: String, latest: String },
    /// A newer release was found and installed.
    Updated { from: String, to: String },
}

/// How an update goes on once the newest version is known.
pub enum UpdateStep {
    /// The update is over.
    Finished(Result<UpdateOutcome, String>),
    /// Reinstall now, then call `finish_update`.
    Install { from: String, to: String },
}

/// Decides how an update goes on. Without `force`, only a newer release is
/// installed.
pub fn run(force: bool, latest: Result<String, String>) -> (step: UpdateStep)
    ensures
        match (latest, step) {
            (Err(error), UpdateStep::Finished(Err(message))) => message@ == error@,
            (
                Ok(newest),
                UpdateStep::Finished(Ok(UpdateOutcome::AlreadyLatest { current, latest: found })),
            ) => !force && !is_newer_text(newest@, VERSION@) && current@ == VERSION@ && found@
                == newest@,
            (Ok(newest), UpdateStep::Install { from, to }) => (force || is_newer_text(
                newest@,
                VERSION@,
            )) && from@ == VERSION@ && to@ == newest@,
            _ => false,
        },
{
    let current: String = current_version().to_owned();
    match latest {
        Err(error) => UpdateStep::Finished(Err(error)),
        Ok(newest) => {
            if !force && !is_newer(newest.as_str(), current.as_str()) {
                UpdateStep::Finished(Ok(UpdateOutcome::AlreadyLatest { current, latest: newest }))
            } else {
                UpdateStep::Install { from: current, to: newest }
            }
        },
    }
}

/// Ends an update with the outcome of the installation.
pub fn finish_update(from: String, to: String, installed: Result<(), String>) -> (outcome: Result<
    UpdateOutcome,
    String,
>)
    ensures
        match (installed, outcome) {
            (Ok(_), Ok(UpdateOutcome::Updated { from: old_version, to: new_version })) => old_version@
                == from@ && new_version@ == to@,
            (Err(error), Err(message)) => message@ == error@,
            _ => false,
        },
{
    match installed {
        Ok(_) => Ok(UpdateOutcome::Updated { from, to }),
        Err(error) => Err(error),
    }
}

// --------------------------------------------------------------------- laws

/// Whether `piece` can stand between the dots of a version as it is: it holds
/// no white space, no dot, no `v`, and nothing that starts a suffix.
pub open spec fn is_plain_piece(piece: Seq<char>) -> bool {
    &&& piece.len() > 0
    &&& forall|i: int|
        0 <= i < piece.len() ==> !text::is_white_space(#[trigger] piece[i]) && piece[i] != '.'
            && piece[i] != '-' && piece[i] != '+' && piece[i] != 'v'
}

proof fn lemma_no_suffix(text: Seq<char>)
    requires
        forall|i: int| 0 <= i < text.len() ==> #[trigger] text[i] != '-' && text[i] != '+',
    ensures
        before_suffix(text) == text,
    decreases text.len(),
{
    if text.len() > 0 {
        let rest = text.drop_first();
        assert forall|i: int| 0 <= i < rest.len() implies #[trigger] rest[i] != '-' && rest[i]
            != '+' by {
            assert(text[i + 1] == rest[i]);
        }
        lemma_no_suffix(rest);
        assert(text[0] == text.first());
        assert(seq![text.first()] + rest =~= text);
    }
}

proof fn lemma_plain_text(text: Seq<char>)
    requires
        text.len() > 0,
        forall|i: int|
            0 <= i < text.len() ==> !text::is_white_space(#[trigger] text[i]) && text[i] != '-'
                && text[i] != '+' && text[i] != 'v',
    ensures
        version_pieces(text) == text::split_on(text, '.'),
{
    assert(!text::is_white_space(text[0]));
    assert(!text::is_white_space(text[text.len() - 1]));
    assert(text::trimmed(text) == text);
    lemma_no_suffix(text);
}

proof fn lemma_split_one(piece: Seq<char>)
    requires
        is_plain_piece(piece),
    ensures
        text::split_on(piece, '.') == seq![piece],
{
    let none = Seq::<char>::empty();
    text::lemma_split_extend(none, piece, '.');
    assert(none + piece =~= piece);
    assert(text::split_on(none, '.') =~= seq![none]);
    assert(text::split_on(piece, '.') =~= seq![piece]);
}

proof fn lemma_split_next(text: Seq<char>, piece: Seq<char>)
    requires
        is_plain_piece(piece),
    ensures
        text::split_on(text + seq!['.'] + piece, '.') == text::split_on(text, '.').push(piece),
{
    let dotted = text + seq!['.'];
    let before = text::split_on(text, '.');
    assert(dotted.drop_last() =~= text);
    assert(text::split_on(dotted, '.') =~= before.push(Seq::empty()));
    text::lemma_split_extend(dotted, piece, '.');
    assert(Seq::<char>::empty() + piece =~= piece);
    assert(before.push(Seq::empty()).drop_last() =~= before);
}

proof fn lemma_plain_joined(text: Seq<char>, piece: Seq<char>)
    requires
        text.len() > 0,
        forall|i: int|
            0 <= i < text.len() ==> !text::is_white_space(#[trigger] text[i]) && text[i] != '-'
                && text[i] != '+' && text[i] != 'v',
        is_plain_piece(piece),
    ensures
        forall|i: int|
            0 <= i < (text + seq!['.'] + piece).len() ==> !text::is_white_space(
                #[trigger] (text + seq!['.'] + piece)[i],
            ) && (text + seq!['.'] + piece)[i] != '-' && (text + seq!['.'] + piece)[i] != '+' && (
            text + seq!['.'] + piece)[i] != 'v',
{
    let whole = text + seq!['.'] + piece;
    assert forall|i: int| 0 <= i < whole.len() implies !text::is_white_space(#[trigger] whole[i])
        && whole[i] != '-' && whole[i] != '+' && whole[i] != 'v' by {
        if i < text.len() {
            assert(whole[i] == text[i]);
        } else if i > text.len() {
            assert(whole[i] == piece[i - text.len() - 1]);
        } else {
            assert(whole[i] == '.');
        }
    }
}

/// The first three pieces between the dots are the three numbers of a version;
/// a piece that is missing counts as zero, further ones do not count, and
/// without a number in each of the first three there is no version.
pub proof fn law_pieces_make_a_version(
    major: Seq<char>,
    minor: Seq<char>,
    patch: Seq<char>,
    rest: Seq<char>,
)
    requires
        is_plain_piece(major),
        is_plain_piece(minor),
        is_plain_piece(patch),
        is_plain_piece(rest),
    ensures
        ({
            let a = text::number(major, u64::MAX as nat);
            let b = text::number(minor, u64::MAX as nat);
            let c = text::number(patch, u64::MAX as nat);
            let two = major + seq!['.'] + minor;
            let three = two + seq!['.'] + patch;
            &&& a is None ==> version(major) is None && version(two) is None && version(
                three,
            ) is None
            &&& b is None ==> version(two) is None && version(three) is None
            &&& c is None ==> version(three) is None
            &&& a is Some ==> version(major) == Some((a->0, 0nat, 0nat))
            &&& a is Some && b is Some ==> version(two) == Some((a->0, b->0, 0nat))
            &&& a is Some && b is Some && c is Some ==> version(three) == Some(
                (a->0, b->0, c->0),
            )
            &&& version(three + seq!['.'] + rest) == version(three)
        }),
{
    let two = major + seq!['.'] + minor;
    let three = two + seq!['.'] + patch;
    let four = three + seq!['.'] + rest;
    lemma_plain_text(major);
    lemma_split_one(major);
    lemma_plain_joined(major, minor);
    lemma_plain_text(two);
    lemma_split_next(major, minor);
    lemma_plain_joined(two, patch);
    lemma_plain_text(three);
    lemma_split_next(two, patch);
    lemma_plain_joined(three, rest);
    lemma_plain_text(four);
    lemma_split_next(three, rest);
    assert(version_pieces(major) =~= seq![major]);
    assert(version_pieces(two) =~= seq![major, minor]);
    assert(version_pieces(three) =~= seq![major, minor, patch]);
    assert(version_pieces(four) =~= seq![major, minor, patch, rest]);
}

proof fn lemma_decimal_is_plain(n: nat)
    ensures
        is_plain_piece(text::decimal(n)),
{
    text::lemma_decimal_value(n);
    let digits = text::decimal(n);
    assert forall|i: int| 0 <= i < digits.len() implies !text::is_white_space(#[trigger] digits[i])
        && digits[i] != '.' && digits[i] != '-' && digits[i] != '+' && digits[i] != 'v' by {
        assert(text::is_digit(digits[i]));
    }
}

/// A version that is written is read back: three numbers with dots between
/// them are that version, and the ones left out at the end are zero.
pub proof fn law_versions_read_back(major: nat, minor: nat, patch: nat)
    requires
        major <= u64::MAX,
        minor <= u64::MAX,
        patch <= u64::MAX,
    ensures
        version(text::decimal(major)) == Some((major, 0nat, 0nat)),
        version(text::decimal(major) + seq!['.'] + text::decimal(minor)) == Some(
            (major, minor, 0nat),
        ),
        version(
            text::decimal(major) + seq!['.'] + text::decimal(minor) + seq!['.'] + text::decimal(
                patch,
            ),
        ) == Some((major, minor, patch)),
{
    lemma_decimal_is_plain(major);
    lemma_decimal_is_plain(minor);
    lemma_decimal_is_plain(patch);
    text::law_numbers_read_back(major, u64::MAX as nat);
    text::law_numbers_read_back(minor, u64::MAX as nat);
    text::law_numbers_read_back(patch, u64::MAX as nat);
    law_pieces_make_a_version(
        text::decimal(major),
        text::decimal(minor),
        text::decimal(patch),
        text::decimal(patch),
    );
}

/// The first number in which two versions differ decides which is older.
pub proof fn law_first_difference_decides(left: (nat, nat, nat), right: (nat, nat, nat))
    ensures
        left.0 < right.0 ==> is_older(left, right) && !is_older(right, left),
        left.0 == right.0 && left.1 < right.1 ==> is_older(left, right) && !is_older(right, left),
        left.0 == right.0 && left.1 == right.1 && left.2 < right.2 ==> is_older(left, right)
            && !is_older(right, left),
        !is_older(left, left),
        left != right ==> is_older(left, right) || is_older(right, left),
{
}

/// Of two texts that write versions, the one with the larger version is newer;
/// one that writes none is neither newer nor older than any other.
pub proof fn law_newer_goes_by_the_numbers(
    left: Seq<char>,
    right: Seq<char>,
    l: (nat, nat, nat),
    r: (nat, nat, nat),
)
    ensures
        version(left) == Some(l) && version(right) == Some(r) ==> is_newer_text(left, right)
            == is_older(r, l),
        version(left) is None ==> !is_newer_text(left, right) && !is_newer_text(right, left),
{
}

/// A member is found under its name, and there is none in what is no object.
/// Only a string has a text.
pub proof fn law_members_and_texts(
    members: Map<Seq<char>, Json>,
    name: Seq<char>,
    value: Json,
    text: Seq<char>,
)
    ensures
        member_of(Json::Object(members.insert(name, value)), name) == value,
        !members.dom().contains(name) ==> member_of(Json::Object(members), name) == Json::Null,
        !(value is Object) ==> member_of(value, name) == Json::Null,
        text_of(Json::Text(text)) == Some(text),
        !(value is Text) ==> text_of(value) is None,
{
}

/// The answer of the registry gives the newest stable version of the crate if
/// it names one, else the newest of all if it names that, and an error else.
pub proof fn law_stable_versions_come_first(
    body: Seq<u8>,
    document: Json,
    stable: Json,
    newest: Json,
)
    requires
        json_document(body) == Ok::<Json, Seq<char>>(document),
        stable == member_of(member_of(document, "crate"@), "max_stable_version"@),
        newest == member_of(member_of(document, "crate"@), "max_version"@),
    ensures
        stable is Text ==> answered_version(body) == Ok::<Seq<char>, Seq<char>>(stable->Text_0),
        !(stable is Text) && newest is Text ==> answered_version(body) == Ok::<
            Seq<char>,
            Seq<char>,
        >(newest->Text_0),
        !(stable is Text) && !(newest is Text) ==> answered_version(body) == Err::<
            Seq<char>,
            Seq<char>,
        >("crates.io response did not include a version"@),
{
}

/// Between two versions the stable one is taken; the newest one stands in for
/// it, and without either there is an error.
pub proof fn law_which_version_is_chosen(stable: Seq<char>, newest: Option<Seq<char>>)
    ensures
        chosen_version(Some(stable), newest) == Ok::<Seq<char>, Seq<char>>(stable),
        newest is Some ==> chosen_version(None, newest) == Ok::<Seq<char>, Seq<char>>(newest->0),
        newest is None ==> chosen_version(None, newest) == Err::<Seq<char>, Seq<char>>(
            "crates.io response did not include a version"@,
        ),
{
}

/// An answer that cannot be read is an error that says why.
pub proof fn law_unreadable_answers_are_errors(body: Seq<u8>, message: Seq<char>)
    requires
        json_document(body) == Err::<Json, Seq<char>>(message),
    ensures
        answered_version(body) == Err::<Seq<char>, Seq<char>>(
            "unexpected crates.io response: "@ + message,
        ),
{
}

/// A command that ran well counts for what it wrote or did; one that failed,
/// or did not start, is an error that says why.
pub proof fn law_what_commands_come_to(
    error: String,
    success: bool,
    status: String,
    output: Vec<u8>,
)
    ensures
        ({
            let ran = CommandOutcome::Exited { success, status, output };
            &&& success ==> looked_up_version(ran) == answered_version(output@) && installed(ran)
                is Ok
            &&& !success ==> looked_up_version(ran) == Err::<Seq<char>, Seq<char>>(
                "crates.io lookup failed ("@ + status@ + "); check your network connection"@,
            ) && installed(ran) == Err::<(), Seq<char>>("cargo install exited with "@ + status@)
        }),
        looked_up_version(CommandOutcome::NotStarted(error)) == Err::<Seq<char>, Seq<char>>(
            "could not run curl: "@ + error@,
        ),
        installed(CommandOutcome::NotStarted(error)) == Err::<(), Seq<char>>(
            "could not run cargo: "@ + error@ + ". Install Rust from https://rustup.rs"@,
        ),
{
}

/// A version ends where its suffix begins: what is left is the part before the
/// first `-` or `+`.
pub proof fn law_suffixes_begin_at_a_sign(text: Seq<char>)
    ensures
        before_suffix(text).len() <= text.len(),
        before_suffix(text) == text.take(before_suffix(text).len() as int),
        before_suffix(text).len() < text.len() ==> text[before_suffix(text).len() as int] == '-'
            || text[before_suffix(text).len() as int] == '+',
        forall|i: int|
            0 <= i < before_suffix(text).len() ==> #[trigger] text[i] != '-' && text[i] != '+',
    decreases text.len(),
{
    if !(text.len() == 0 || text.first() == '-' || text.first() == '+') {
        let rest = text.drop_first();
        law_suffixes_begin_at_a_sign(rest);
        let whole = before_suffix(text);
        let tail = before_suffix(rest);
        assert(whole.len() == tail.len() + 1);
        assert(whole =~= text.take(whole.len() as int)) by {
            assert forall|i: int| 0 <= i < whole.len() implies whole[i] == text[i] by {
                if i > 0 {
                    assert(whole[i] == tail[i - 1]);
                    assert(tail[i - 1] == rest[i - 1]);
                }
            }
        }
        assert forall|i: int| 0 <= i < whole.len() implies #[trigger] text[i] != '-' && text[i]
            != '+' by {
            if i > 0 {
                assert(text[i] == rest[i - 1]);
            }
        }
        if whole.len() < text.len() {
            assert(text[whole.len() as int] == rest[tail.len() as int]);
        }
    }
}

} // verus!

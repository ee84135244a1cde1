//! Decisions of the command-line Godot integration: option values, output
//! paths inside a Godot project, and the answers of the headless runner.
use crate::diagnostic::{joined, join_texts};
use crate::editor::component_parts;
use crate::sources::{fold_from, split_text};
use crate::text::{owned, texts};
use crate::token_json::{get, json_get, JsonValue};
use crate::token_path::split_on;
use vstd::prelude::*;

verus! {

/// The value of a string of decimal digits.
pub open spec fn digits_value(s: Seq<char>) -> int
    decreases s.len(),
{
    if s.len() == 0 {
        0
    } else {
        digits_value(s.drop_last()) * 10 + (s.last() as int - '0' as int)
    }
}

/// Whether every character of `s` is an ASCII digit.
pub open spec fn all_digits(s: Seq<char>) -> bool {
    forall|i: int| 0 <= i < s.len() ==> '0' <= #[trigger] s[i] <= '9'
}

/// Text that `str::parse::<u32>` accepts: an optional `+`, then at least one
/// digit, denoting a value that fits in 32 bits.
pub open spec fn u32_text(s: Seq<char>) -> bool {
    let d = if s.len() > 0 && s[0] == '+' {
        s.drop_first()
    } else {
        s
    };
    d.len() > 0 && all_digits(d) && digits_value(d) <= u32::MAX
}

/// A version requirement of the form MAJOR.MINOR.PATCH with numeric parts.
pub open spec fn version_requirement(v: Seq<char>) -> bool {
    let parts = split_on(v, '.');
    parts.len() == 3 && forall|i: int| 0 <= i < 3 ==> #[trigger] parts[i].len() > 0 && u32_text(parts[i])
}

/// Appending a digit does not lower the value.
proof fn lemma_digits_grow(s: Seq<char>, k: int)
    requires
        0 <= k <= s.len(),
        all_digits(s),
    ensures
        digits_value(s.take(k)) <= digits_value(s),
        digits_value(s.take(k)) >= 0,
    decreases s.len() - k,
{
    if k < s.len() {
        lemma_digits_grow(s, k + 1);
        assert(s.take(k + 1).drop_last() =~= s.take(k));
        assert(s.take(k + 1).last() == s[k]);
        assert('0' <= s[k] <= '9');
    } else {
        assert(s.take(k) =~= s);
        lemma_digits_nonnegative(s);
    }
}

proof fn lemma_digits_nonnegative(s: Seq<char>)
    requires
        all_digits(s),
    ensures
        digits_value(s) >= 0,
    decreases s.len(),
{
    if s.len() > 0 {
        assert(all_digits(s.drop_last()));
        lemma_digits_nonnegative(s.drop_last());
        assert('0' <= s[s.len() - 1] <= '9');
    }
}

/// Whether `text` is accepted by `str::parse::<u32>`.
fn parses_as_u32(text: &str) -> (r: bool)
    ensures
        r == u32_text(text@),
{
    let chars = crate::text::chars_of(text);
    let start: usize = if chars.len() > 0 && chars[0] == '+' {
        1
    } else {
        0
    };
    let ghost d = if text@.len() > 0 && text@[0] == '+' {
        text@.drop_first()
    } else {
        text@
    };
    if start >= chars.len() {
        return false;
    }
    let mut value: u64 = 0;
    let mut i: usize = start;
    assert(chars@.subrange(start as int, start as int) =~= Seq::<char>::empty());
    while i < chars.len()
        invariant
            chars@ == text@,
            start <= i <= chars@.len(),
            d == chars@.subrange(start as int, chars@.len() as int),
            d == (if text@.len() > 0 && text@[0] == '+' {
                text@.drop_first()
            } else {
                text@
            }),
            all_digits(chars@.subrange(start as int, i as int)),
            value == digits_value(chars@.subrange(start as int, i as int)),
            value <= u32::MAX,
        decreases chars@.len() - i,
    {
        let c = chars[i];
        let ghost before = chars@.subrange(start as int, i as int);
        assert(chars@.subrange(start as int, i + 1).drop_last() =~= before);
        if !('0' <= c && c <= '9') {
            proof {
                assert(d[i - start] == c);
                assert(!all_digits(d));

            }
            return false;
        }
        let digit = (c as u64) - ('0' as u64);
        value = value * 10 + digit;
        if value > 0xffff_ffffu64 {
            proof {
                let ghost next = chars@.subrange(start as int, i + 1);
                assert(next.last() == c);
                assert(digits_value(next) == digits_value(before) * 10 + (c as int - '0' as int));
                assert(value == digits_value(next));
                if all_digits(d) {
                    assert(d.take(i + 1 - start) =~= next);
                    lemma_digits_grow(d, i + 1 - start);
                }
                assert(!u32_text(text@));
            }
            return false;
        }
        i = i + 1;
    }
    true
}

/// Checks a `--require-godot-version` value: MAJOR.MINOR.PATCH with numeric parts.
pub fn parse_required_version(value: &str) -> (r: Result<String, String>)
    ensures
        match r {
            Ok(v) => version_requirement(value@) && v@ == value@,
            Err(e) => !version_requirement(value@) && e@
                == "expected a numeric MAJOR.MINOR.PATCH version such as 4.5.0"@,
        },
{
    let parts = split_text(value, '.');
    let mut ok = parts.len() == 3;
    let mut i: usize = 0;
    while ok && i < parts.len()
        invariant
            texts(parts@) == split_on(value@, '.'),
            parts@.len() == 3 ==> i <= 3,
            i <= parts@.len(),
            ok ==> parts@.len() == 3,
            ok ==> forall|j: int| 0 <= j < i ==> #[trigger] texts(parts@)[j].len() > 0 && u32_text(
                texts(parts@)[j],
            ),
            !ok ==> !version_requirement(value@),
        decreases parts@.len() - i,
    {
        let part = parts[i].as_str();
        assert(texts(parts@)[i as int] == part@);
        if part.unicode_len() == 0 || !parses_as_u32(part) {
            ok = false;
        }
        i = i + 1;
    }
    if ok {
        Ok(owned(value))
    } else {
        Err(owned("expected a numeric MAJOR.MINOR.PATCH version such as 4.5.0"))
    }
}

/// Whether some part of `parts` is `..`.
pub open spec fn has_parent_part(parts: Seq<Seq<char>>) -> bool {
    exists|i: int| 0 <= i < parts.len() && #[trigger] parts[i] == ".."@
}

/// The outcome of checking a path written after `res://`.
pub open spec fn safe_relative_outcome(path: Seq<char>) -> Result<Seq<char>, Seq<char>> {
    let parts = split_on(path, '/');
    if (path.len() > 0 && path[0] == '/') || has_parent_part(parts) {
        Err("Godot res:// output '"@ + path + "' must stay inside the project"@)
    } else if component_parts(parts).len() == 0 {
        Err("Godot theme output must name a file below res://"@)
    } else {
        Ok(joined(component_parts(parts), "/"@))
    }
}

/// Checks a path written after `res://`: it must stay inside the project and
/// name a file. Returns its components joined with `/`.
pub fn safe_relative_path(path: &str) -> (r: Result<String, String>)
    ensures
        match (r, safe_relative_outcome(path@)) {
            (Ok(a), Ok(b)) => a@ == b,
            (Err(a), Err(b)) => a@ == b,
            _ => false,
        },
{
    let parts = split_text(path, '/');
    proof {
        reveal_strlit(".");
        reveal_strlit("..");
    }
    let mut segments: Vec<String> = Vec::new();
    let mut escapes = path.unicode_len() > 0 && path.get_char(0) == '/';
    let ghost absolute = escapes;
    let mut i: usize = 0;
    assert(texts(parts@).take(0) =~= Seq::<Seq<char>>::empty());
    assert(component_parts(Seq::<Seq<char>>::empty()) =~= Seq::<Seq<char>>::empty());
    while i < parts.len()
        invariant
            texts(parts@) == split_on(path@, '/'),
            absolute == (path@.len() > 0 && path@[0] == '/'),
            i <= parts@.len(),
            escapes == (absolute || has_parent_part(texts(parts@).take(i as int))),
            texts(segments@) == component_parts(texts(parts@).take(i as int)),
        decreases parts@.len() - i,
    {
        let part = parts[i].as_str();
        let ghost prefix = texts(parts@).take(i as int);
        let ghost next = texts(parts@).take(i + 1);
        assert(next.drop_last() =~= prefix);
        assert(next[i as int] == part@);
        if crate::text::text_eq(part, "..") {
            escapes = true;
        }
        proof {
            if has_parent_part(next) && part@ != ".."@ {
                let j = choose|j: int| 0 <= j < next.len() && #[trigger] next[j] == ".."@;
                assert(prefix[j] == ".."@);
            }
            if has_parent_part(prefix) {
                let j = choose|j: int| 0 <= j < prefix.len() && #[trigger] prefix[j] == ".."@;
                assert(next[j] == ".."@);
            }
        }
        if part.unicode_len() > 0 && !crate::text::text_eq(part, ".") {
            let ghost before = segments@;
            segments.push(owned(part));
            assert(texts(segments@) =~= texts(before).push(part@));
        }
        i = i + 1;
    }
    assert(texts(parts@).take(parts@.len() as int) =~= texts(parts@));
    if escapes {
        let mut message = owned("Godot res:// output '");
        message.append(path);
        message.append("' must stay inside the project");
        return Err(message);
    }
    if segments.len() == 0 {
        return Err(owned("Godot theme output must name a file below res://"));
    }
    Ok(join_texts(&segments, "/"))
}

/// The outcome of normalizing an absolute output path: `.` and empty parts
/// are dropped and `..` removes the previous component.
pub open spec fn absolute_outcome(path: Seq<char>) -> Result<Seq<char>, Seq<char>> {
    if !(path.len() > 0 && path[0] == '/') {
        Err("output path '"@ + path + "' is not absolute"@)
    } else {
        match fold_from(Seq::empty(), split_on(path, '/')) {
            Ok(stack) => Ok("/"@ + joined(stack, "/"@)),
            Err(_) => Err("output path '"@ + path + "' escapes the filesystem root"@),
        }
    }
}

/// Normalizes an absolute output path without consulting the filesystem.
pub fn normalize_absolute_path(path: &str) -> (r: Result<String, String>)
    ensures
        match (r, absolute_outcome(path@)) {
            (Ok(a), Ok(b)) => a@ == b,
            (Err(a), Err(b)) => a@ == b,
            _ => false,
        },
{
    if !(path.unicode_len() > 0 && path.get_char(0) == '/') {
        let mut message = owned("output path '");
        message.append(path);
        message.append("' is not absolute");
        return Err(message);
    }
    let parts = split_text(path, '/');
    assert(texts(Seq::<String>::empty()) =~= Seq::<Seq<char>>::empty());
    match crate::sources::apply_parts(Vec::new(), &parts) {
        Ok(stack) => {
            let mut r = owned("/");
            r.append(join_texts(&stack, "/").as_str());
            Ok(r)
        },
        Err(_) => {
            let mut message = owned("output path '");
            message.append(path);
            message.append("' escapes the filesystem root");
            Err(message)
        },
    }
}

/// The file name of a path: its last component, unless that is `..`.
pub open spec fn file_name_of(path: Seq<char>) -> Option<Seq<char>> {
    let comps = component_parts(split_on(path, '/'));
    if comps.len() == 0 || comps.last() == ".."@ {
        None
    } else {
        Some(comps.last())
    }
}

/// Whether a path names a `.tres` file: its file name has the extension
/// `tres` after a non-empty stem.
pub open spec fn tres_path(path: Seq<char>) -> bool {
    match file_name_of(path) {
        Some(name) => name.len() > 5 && name.subrange(name.len() - 5, name.len() as int)
            == ".tres"@,
        None => false,
    }
}

/// Returns whether an output path names a `.tres` file.
pub fn has_tres_extension(path: &str) -> (r: bool)
    ensures
        r == tres_path(path@),
{
    let parts = split_text(path, '/');
    proof {
        reveal_strlit(".");
        reveal_strlit("..");
        reveal_strlit(".tres");
    }
    let mut last: Option<usize> = None;
    let mut i: usize = 0;
    assert(texts(parts@).take(0) =~= Seq::<Seq<char>>::empty());
    while i < parts.len()
        invariant
            texts(parts@) == split_on(path@, '/'),
            i <= parts@.len(),
            match last {
                Some(k) => k < i && component_parts(texts(parts@).take(i as int)).len() > 0
                    && component_parts(texts(parts@).take(i as int)).last() == texts(parts@)[k as int],
                None => component_parts(texts(parts@).take(i as int)).len() == 0,
            },
        decreases parts@.len() - i,
    {
        let part = parts[i].as_str();
        assert(texts(parts@).take(i + 1).drop_last() =~= texts(parts@).take(i as int));
        assert(texts(parts@)[i as int] == part@);
        if part.unicode_len() > 0 && !crate::text::text_eq(part, ".") {
            last = Some(i);
        }
        i = i + 1;
    }
    assert(texts(parts@).take(parts@.len() as int) =~= texts(parts@));
    match last {
        None => false,
        Some(k) => {
            let name = parts[k].as_str();
            assert(texts(parts@)[k as int] == name@);
            if crate::text::text_eq(name, "..") {
                return false;
            }
            let chars = crate::text::chars_of(name);
            let n = chars.len();
            if n <= 5 {
                return false;
            }
            let r = chars[n - 5] == '.' && chars[n - 4] == 't' && chars[n - 3] == 'r' && chars[n
                - 2] == 'e' && chars[n - 1] == 's';
            proof {
                let sub = name@.subrange(n - 5, n as int);
                let lit = ".tres"@;
                assert(lit.len() == 5);
                if r {
                    assert(sub =~= lit);
                }
                if sub == lit {
                    assert(sub[0] == lit[0] && sub[1] == lit[1] && sub[2] == lit[2] && sub[3] == lit[3]
                        && sub[4] == lit[4]);
                }
            }
            r
        },
    }
}

/// The text of a JSON value that is a string.
pub open spec fn json_text(v: Option<JsonValue>) -> Option<Seq<char>> {
    match v {
        Some(JsonValue::String(s)) => Some(s@),
        _ => None,
    }
}

/// The string member `key` of a JSON object.
pub open spec fn text_field(v: JsonValue, key: Seq<char>) -> Option<Seq<char>> {
    match v {
        JsonValue::Object(entries) => json_text(json_get(entries@, key)),
        _ => None,
    }
}

/// The runtime version named by a runner response: `godot_version` as
/// text, or its `display` text followed by at most nine characters of its
/// `hash` in brackets.
pub open spec fn version_label_of(response: JsonValue) -> Option<Seq<char>> {
    match response {
        JsonValue::Object(entries) => match json_get(entries@, "godot_version"@) {
            Some(JsonValue::String(s)) => Some(s@),
            Some(version) => match text_field(version, "display"@) {
                Some(display) => {
                    let hash = match text_field(version, "hash"@) {
                        Some(h) => h,
                        None => Seq::empty(),
                    };
                    if hash.len() == 0 {
                        Some(display)
                    } else {
                        Some(
                            display + " ["@ + hash.take(if hash.len() < 9 {
                                hash.len() as int
                            } else {
                                9
                            }) + "]"@,
                        )
                    }
                },
                None => None,
            },
            None => None,
        },
        _ => None,
    }
}

/// Returns the string member `key` of a JSON object.
fn string_field<'a>(v: &'a JsonValue, key: &str) -> (r: Option<&'a String>)
    ensures
        match (r, text_field(*v, key@)) {
            (Some(a), Some(b)) => a@ == b,
            (None, None) => true,
            _ => false,
        },
{
    match v {
        JsonValue::Object(entries) => match get(entries, key) {
            Some(JsonValue::String(s)) => Some(s),
            _ => None,
        },
        _ => None,
    }
}

/// Names the Godot runtime that answered.
pub fn version_label(response: &JsonValue) -> (r: Option<String>)
    ensures
        match (r, version_label_of(*response)) {
            (Some(a), Some(b)) => a@ == b,
            (None, None) => true,
            _ => false,
        },
{
    let entries = match response {
        JsonValue::Object(entries) => entries,
        _ => {
            return None;
        },
    };
    let version = match get(entries, "godot_version") {
        Some(v) => v,
        None => {
            return None;
        },
    };
    if let JsonValue::String(s) = version {
        return Some(s.clone());
    }
    let display = match string_field(version, "display") {
        Some(d) => d,
        None => {
            return None;
        },
    };
    let hash = match string_field(version, "hash") {
        Some(h) => h.clone(),
        None => String::new(),
    };
    if hash.unicode_len() == 0 {
        return Some(display.clone());
    }
    let chars = crate::text::chars_of(hash.as_str());
    let keep: usize = if chars.len() < 9 {
        chars.len()
    } else {
        9
    };
    let mut r = display.clone();
    r.append(" [");
    let ghost before = r@;
    let mut i: usize = 0;
    while i < keep
        invariant
            keep <= chars@.len(),
            chars@ == hash@,
            i <= keep,
            r@ == before + chars@.take(i as int),
        decreases keep - i,
    {
        crate::text::push_char(&mut r, chars[i]);
        assert(chars@.take(i + 1) =~= chars@.take(i as int).push(chars@[i as int]));
        i = i + 1;
    }
    r.append("]");
    Some(r)
}

/// The non-empty context fields of a runner diagnostic, as `field=value`.
pub open spec fn runner_context(d: JsonValue) -> Seq<Seq<char>> {
    let part = |field: Seq<char>|
        match text_field(d, field) {
            Some(v) => if v.len() > 0 {
                seq![field + "="@ + v]
            } else {
                Seq::<Seq<char>>::empty()
            },
            None => Seq::<Seq<char>>::empty(),
        };
    part("style"@) + part("target"@) + part("state"@) + part("property"@)
}

/// A runner diagnostic rendered as `[CODE context] MESSAGE`.
pub open spec fn runner_diagnostic_text(d: JsonValue) -> Seq<char> {
    let message = match text_field(d, "message"@) {
        Some(m) => m,
        None => "Godot target operation failed"@,
    };
    let code = match text_field(d, "code"@) {
        Some(c) => c,
        None => "godot_error"@,
    };
    let context = runner_context(d);
    if context.len() == 0 {
        "["@ + code + "] "@ + message
    } else {
        "["@ + code + " "@ + joined(context, " "@) + "] "@ + message
    }
}

/// Appends `field=value` when the diagnostic has a non-empty `field`.
fn push_field(parts: &mut Vec<String>, d: &JsonValue, field: &str)
    ensures
        texts(final(parts)@) == texts(old(parts)@) + match text_field(*d, field@) {
            Some(v) => if v.len() > 0 {
                seq![field@ + "="@ + v]
            } else {
                Seq::<Seq<char>>::empty()
            },
            None => Seq::<Seq<char>>::empty(),
        },
{
    match string_field(d, field) {
        Some(v) => if v.unicode_len() > 0 {
            let mut part = owned(field);
            part.append("=");
            part.append(v.as_str());
            let ghost before = parts@;
            parts.push(part);
            assert(texts(parts@) =~= texts(before) + seq![field@ + "="@ + v@]);
        } else {
            assert(texts(parts@) =~= texts(parts@) + Seq::<Seq<char>>::empty());
        },
        None => {
            assert(texts(parts@) =~= texts(parts@) + Seq::<Seq<char>>::empty());
        },
    }
}

/// Renders one diagnostic of the headless runner.
pub fn format_diagnostic(diagnostic: &JsonValue) -> (r: String)
    ensures
        r@ == runner_diagnostic_text(*diagnostic),
{
    let message = match string_field(diagnostic, "message") {
        Some(m) => m.clone(),
        None => owned("Godot target operation failed"),
    };
    let code = match string_field(diagnostic, "code") {
        Some(c) => c.clone(),
        None => owned("godot_error"),
    };
    let mut parts: Vec<String> = Vec::new();
    assert(texts(parts@) =~= Seq::<Seq<char>>::empty());
    push_field(&mut parts, diagnostic, "style");
    push_field(&mut parts, diagnostic, "target");
    push_field(&mut parts, diagnostic, "state");
    push_field(&mut parts, diagnostic, "property");
    assert(texts(parts@) =~= runner_context(*diagnostic));
    let mut r = owned("[");
    r.append(code.as_str());
    if parts.len() > 0 {
        r.append(" ");
        r.append(join_texts(&parts, " ").as_str());
    }
    r.append("] ");
    r.append(message.as_str());
    r
}

/// What a runner answer means for the command.
#[derive(Debug, PartialEq, Eq)]
pub enum RunnerAnswer {
    /// The operation succeeded on the named runtime version.
    Version(String),
    /// The operation failed with this explanation.
    Failure(String),
    /// The operation failed without diagnostics; the process status and its
    /// output must explain it.
    Unexplained,
}

/// Whether a runner response reports success.
pub open spec fn reports_success(response: JsonValue) -> bool {
    match response {
        JsonValue::Object(entries) => json_get(entries@, "ok"@) == Some(JsonValue::Bool(true)),
        _ => false,
    }
}

/// The rendered diagnostics of a runner response.
pub open spec fn response_diagnostics(response: JsonValue) -> Seq<Seq<char>> {
    match response {
        JsonValue::Object(entries) => match json_get(entries@, "diagnostics"@) {
            Some(JsonValue::Array(items)) => items@.map_values(
                |d: JsonValue| runner_diagnostic_text(d),
            ),
            _ => Seq::empty(),
        },
        _ => Seq::empty(),
    }
}

/// Interprets the response of the headless runner: success needs both a
/// successful response and a successful process.
pub fn interpret_response(response: &JsonValue, process_succeeded: bool) -> (r: RunnerAnswer)
    ensures
        if reports_success(*response) && process_succeeded {
            match version_label_of(*response) {
                Some(v) => r matches RunnerAnswer::Version(s) && s@ == v,
                None => r matches RunnerAnswer::Failure(m) && m@
                    == "Godot response did not identify its runtime version"@,
            }
        } else if response_diagnostics(*response).len() == 0 {
            r is Unexplained
        } else {
            r matches RunnerAnswer::Failure(m) && m@ == joined(response_diagnostics(*response), "\n"@)
        },
{
    let entries = match response {
        JsonValue::Object(entries) => Some(entries),
        _ => None,
    };
    let ok = match entries {
        Some(e) => match get(e, "ok") {
            Some(JsonValue::Bool(true)) => true,
            _ => false,
        },
        None => false,
    };
    if ok && process_succeeded {
        return match version_label(response) {
            Some(v) => RunnerAnswer::Version(v),
            None => RunnerAnswer::Failure(owned("Godot response did not identify its runtime version")),
        };
    }
    let items = match entries {
        Some(e) => match get(e, "diagnostics") {
            Some(JsonValue::Array(items)) => Some(items),
            _ => None,
        },
        None => None,
    };
    match items {
        None => RunnerAnswer::Unexplained,
        Some(items) => {
            if items.len() == 0 {
                return RunnerAnswer::Unexplained;
            }
            let ghost all = items@.map_values(|d: JsonValue| runner_diagnostic_text(d));
            let mut lines: Vec<String> = Vec::new();
            let mut i: usize = 0;
            assert(texts(lines@) =~= all.take(0));
            while i < items.len()
                invariant
                    all == items@.map_values(|d: JsonValue| runner_diagnostic_text(d)),
                    i <= items@.len(),
                    texts(lines@) == all.take(i as int),
                decreases items@.len() - i,
            {
                let ghost before = lines@;
                lines.push(format_diagnostic(&items[i]));
                assert(texts(lines@) =~= all.take(i + 1)) by {
                    assert(texts(lines@) =~= texts(before).push(lines@.last()@));
                }
                i = i + 1;
            }
            assert(all.take(all.len() as int) =~= all);
            RunnerAnswer::Failure(join_texts(&lines, "\n"))
        },
    }
}

/// The components of a path: its `/`-separated parts other than empty and `.` parts.
pub open spec fn path_components(path: Seq<char>) -> Seq<Seq<char>> {
    component_parts(split_on(path, '/'))
}

/// Splits a path into its components.
fn components(path: &str) -> (r: Vec<String>)
    ensures
        texts(r@) == path_components(path@),
{
    let parts = split_text(path, '/');
    proof {
        reveal_strlit(".");
    }
    let mut out: Vec<String> = Vec::new();
    let mut i: usize = 0;
    assert(texts(parts@).take(0) =~= Seq::<Seq<char>>::empty());
    assert(texts(out@) =~= Seq::<Seq<char>>::empty());
    while i < parts.len()
        invariant
            texts(parts@) == split_on(path@, '/'),
            i <= parts@.len(),
            texts(out@) == component_parts(texts(parts@).take(i as int)),
        decreases parts@.len() - i,
    {
        let part = parts[i].as_str();
        assert(texts(parts@).take(i + 1).drop_last() =~= texts(parts@).take(i as int));
        assert(texts(parts@)[i as int] == part@);
        if part.unicode_len() > 0 && !crate::text::text_eq(part, ".") {
            let ghost before = out@;
            out.push(owned(part));
            assert(texts(out@) =~= texts(before).push(part@));
        }
        i = i + 1;
    }
    assert(texts(parts@).take(parts@.len() as int) =~= texts(parts@));
    out
}

/// The directory containing an absolute path, or `None` for the root.
pub open spec fn parent_of(path: Seq<char>) -> Option<Seq<char>> {
    let comps = path_components(path);
    if comps.len() == 0 {
        None
    } else {
        Some("/"@ + joined(comps.drop_last(), "/"@))
    }
}

/// Returns the directory containing an absolute path, or `None` for the root.
pub fn parent_path(path: &str) -> (r: Option<String>)
    requires
        path@.len() > 0 && path@[0] == '/',
    ensures
        match (r, parent_of(path@)) {
            (Some(a), Some(b)) => a@ == b,
            (None, None) => true,
            _ => false,
        },
{
    let mut comps = components(path);
    if comps.len() == 0 {
        return None;
    }
    let ghost all = comps@;
    comps.pop();
    assert(texts(comps@) =~= texts(all).drop_last());
    let mut r = owned("/");
    r.append(join_texts(&comps, "/").as_str());
    Some(r)
}

/// Whether `prefix` is a leading part of `s`.
pub open spec fn is_prefix(prefix: Seq<Seq<char>>, s: Seq<Seq<char>>) -> bool {
    prefix.len() <= s.len() && s.take(prefix.len() as int) == prefix
}

/// Whether the components `prefix` lead the components `s`.
fn leads(prefix: &Vec<String>, s: &Vec<String>) -> (r: bool)
    ensures
        r == is_prefix(texts(prefix@), texts(s@)),
{
    if prefix.len() > s.len() {
        return false;
    }
    let mut i: usize = 0;
    while i < prefix.len()
        invariant
            prefix@.len() <= s@.len(),
            i <= prefix@.len(),
            forall|j: int| 0 <= j < i ==> #[trigger] texts(prefix@)[j] == texts(s@)[j],
        decreases prefix@.len() - i,
    {
        if !crate::text::text_eq(prefix[i].as_str(), s[i].as_str()) {
            assert(texts(prefix@)[i as int] != texts(s@).take(prefix@.len() as int)[i as int]);
            return false;
        }
        i = i + 1;
    }
    assert(texts(s@).take(prefix@.len() as int) =~= texts(prefix@));
    true
}

/// Returns whether the components of `prefix` lead those of `path`.
pub fn is_path_prefix(prefix: &str, path: &str) -> (r: bool)
    ensures
        r == is_prefix(path_components(prefix@), path_components(path@)),
{
    let a = components(prefix);
    let b = components(path);
    leads(&a, &b)
}

/// Where an output file lands in the project's `res://` namespace.
///
/// `ancestor` is the nearest existing ancestor of `output`, `canonical` is
/// what the filesystem resolves it to, and `canonical_is_dir` tells whether
/// that is a directory. The output must stay inside `project` (compared by
/// components), and the part of `output` below `ancestor` is kept as written.
pub open spec fn placement(
    project: Seq<char>,
    output: Seq<char>,
    ancestor: Seq<char>,
    canonical: Seq<char>,
    canonical_is_dir: bool,
) -> Result<Seq<char>, Seq<char>> {
    let project_parts = path_components(project);
    let suffix = path_components(output).skip(path_components(ancestor).len() as int);
    let absolute = path_components(canonical) + suffix;
    let relative = absolute.skip(project_parts.len() as int);
    if !canonical_is_dir {
        Err("Godot output ancestor '"@ + ancestor + "' is not a directory"@)
    } else if !is_prefix(project_parts, path_components(canonical)) {
        Err("Godot theme output '"@ + output + "' escapes project '"@ + project + "' through '"@
            + ancestor + "'"@)
    } else if has_parent_part(relative) {
        Err("Godot resource path '"@ + joined(relative, "/"@) + "' is not project-relative"@)
    } else {
        Ok("res://"@ + joined(relative, "/"@))
    }
}

/// Places an output file below a project, given the nearest existing
/// ancestor of the output and what the filesystem resolved it to.
pub fn place_output(
    project: &str,
    output: &str,
    ancestor: &str,
    canonical: &str,
    canonical_is_dir: bool,
) -> (r: Result<String, String>)
    requires
        is_prefix(path_components(ancestor@), path_components(output@)),
    ensures
        match (r, placement(project@, output@, ancestor@, canonical@, canonical_is_dir)) {
            (Ok(a), Ok(b)) => a@ == b,
            (Err(a), Err(b)) => a@ == b,
            _ => false,
        },
{
    if !canonical_is_dir {
        let mut m = owned("Godot output ancestor '");
        m.append(ancestor);
        m.append("' is not a directory");
        return Err(m);
    }
    let project_parts = components(project);
    let canonical_parts = components(canonical);
    if !leads(&project_parts, &canonical_parts) {
        let mut m = owned("Godot theme output '");
        m.append(output);
        m.append("' escapes project '");
        m.append(project);
        m.append("' through '");
        m.append(ancestor);
        m.append("'");
        return Err(m);
    }
    let output_parts = components(output);
    let ancestor_parts = components(ancestor);
    let ghost suffix = texts(output_parts@).skip(ancestor_parts@.len() as int);
    let ghost absolute = texts(canonical_parts@) + suffix;
    let ghost relative = absolute.skip(project_parts@.len() as int);
    let mut rel: Vec<String> = Vec::new();
    let mut parent = false;
    let mut i: usize = project_parts.len();
    while i < canonical_parts.len()
        invariant
            project_parts@.len() <= i <= canonical_parts@.len(),
            texts(rel@) == texts(canonical_parts@).subrange(project_parts@.len() as int, i as int),
            parent == has_parent_part(texts(rel@)),
        decreases canonical_parts@.len() - i,
    {
        let part = canonical_parts[i].as_str();
        let ghost before = texts(rel@);
        if crate::text::text_eq(part, "..") {
            parent = true;
        }
        let ghost rel_before = rel@;
        rel.push(owned(part));
        assert(texts(rel@) =~= texts(rel_before).push(part@));
        assert(texts(canonical_parts@)[i as int] == part@);
        proof {
            reveal_strlit("..");
            lemma_parent_part_push(before, part@);
        }
        assert(texts(rel@) =~= texts(canonical_parts@).subrange(project_parts@.len() as int, i + 1));
        i = i + 1;
    }
    assert(texts(canonical_parts@).subrange(project_parts@.len() as int, canonical_parts@.len() as int)
        =~= texts(canonical_parts@).skip(project_parts@.len() as int));
    assert(texts(output_parts@).subrange(ancestor_parts@.len() as int, ancestor_parts@.len() as int)
        =~= Seq::<Seq<char>>::empty());
    assert(texts(rel@) =~= texts(canonical_parts@).skip(project_parts@.len() as int) + texts(
        output_parts@,
    ).subrange(ancestor_parts@.len() as int, ancestor_parts@.len() as int));
    let mut j: usize = ancestor_parts.len();
    while j < output_parts.len()
        invariant
            ancestor_parts@.len() <= j <= output_parts@.len(),
            texts(rel@) == texts(canonical_parts@).skip(project_parts@.len() as int) + texts(
                output_parts@,
            ).subrange(ancestor_parts@.len() as int, j as int),
            parent == has_parent_part(texts(rel@)),
        decreases output_parts@.len() - j,
    {
        let part = output_parts[j].as_str();
        let ghost before = texts(rel@);
        if crate::text::text_eq(part, "..") {
            parent = true;
        }
        let ghost rel_before = rel@;
        rel.push(owned(part));
        assert(texts(rel@) =~= texts(rel_before).push(part@));
        assert(texts(output_parts@)[j as int] == part@);
        proof {
            reveal_strlit("..");
            lemma_parent_part_push(before, part@);
        }
        assert(texts(rel@) =~= texts(canonical_parts@).skip(project_parts@.len() as int) + texts(
            output_parts@,
        ).subrange(ancestor_parts@.len() as int, j + 1));
        j = j + 1;
    }
    assert(texts(rel@) =~= relative);
    if parent {
        let mut m = owned("Godot resource path '");
        m.append(join_texts(&rel, "/").as_str());
        m.append("' is not project-relative");
        return Err(m);
    }
    let mut r = owned("res://");
    r.append(join_texts(&rel, "/").as_str());
    Ok(r)
}

/// A `..` part after a sequence of parts.
proof fn lemma_parent_part_push(s: Seq<Seq<char>>, p: Seq<char>)
    ensures
        has_parent_part(s.push(p)) == (has_parent_part(s) || p == ".."@),
{
    if has_parent_part(s) {
        let j = choose|j: int| 0 <= j < s.len() && #[trigger] s[j] == ".."@;
        assert(s.push(p)[j] == ".."@);
    }
    if p == ".."@ {
        assert(s.push(p)[s.len() as int] == ".."@);
    }
    if has_parent_part(s.push(p)) && p != ".."@ {
        let j = choose|j: int| 0 <= j < s.push(p).len() && #[trigger] s.push(p)[j] == ".."@;
        assert(s[j] == ".."@);
    }
}

} // verus!

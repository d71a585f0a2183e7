//! The path codec: structured paths, their canonical string form, and the
//! lenient parser that reads such strings back.
use super::text::{chars_of, string_of};
use vstd::prelude::*;
use vstd::string::StringExecFns;

verus! {

/// One step of a structured path.
#[derive(Debug, PartialEq)]
pub enum PathPart {
    /// Into an object, by key.
    Key(String),
    /// Into an array, by position.
    Index(usize),
}

/// The mathematical model of a `PathPart`.
pub enum Step {
    Key(Seq<char>),
    Index(nat),
}

impl View for PathPart {
    type V = Step;

    open spec fn view(&self) -> Step {
        match self {
            PathPart::Key(key) => Step::Key(key@),
            PathPart::Index(index) => Step::Index(*index as nat),
        }
    }
}

/// The models of a sequence of path parts.
pub open spec fn steps_of(parts: Seq<PathPart>) -> Seq<Step> {
    Seq::new(parts.len(), |i: int| parts[i]@)
}

/// The four characters that cannot stand in a bare key.
pub open spec fn is_special(c: char) -> bool {
    c == '.' || c == '[' || c == ']' || c == '"'
}

/// A key needs escaping when it holds a special character.
pub open spec fn needs_escaping_spec(key: Seq<char>) -> bool {
    exists|i: int| 0 <= i < key.len() && is_special(#[trigger] key[i])
}

/// Whether a key holds one of the characters `.`, `[`, `]` and `"`, and so
/// has to be written in its quoted form.
pub fn needs_escaping(key: &str) -> (needed: bool)
    ensures
        needed == needs_escaping_spec(key@),
{
    let chars = chars_of(key);
    let mut i: usize = 0;
    while i < chars.len()
        invariant
            i <= chars.len(),
            chars@ == key@,
            forall|j: int| 0 <= j < i ==> !is_special(#[trigger] chars@[j]),
        decreases chars.len() - i,
    {
        let c = chars[i];
        if c == '.' || c == '[' || c == ']' || c == '"' {
            return true;
        }
        i += 1;
    }
    false
}

/// The value of a string of decimal digits.
pub open spec fn decimal_value(digits: Seq<char>) -> nat
    decreases digits.len(),
{
    if digits.len() == 0 {
        0
    } else {
        decimal_value(digits.drop_last()) * 10 + (digits.last() as nat - '0' as nat) as nat
    }
}

/// The ten decimal digits.
pub open spec fn is_digit(c: char) -> bool {
    '0' <= c <= '9'
}

/// Whether every character of `s` is a decimal digit.
pub open spec fn all_digits(s: Seq<char>) -> bool {
    forall|i: int| 0 <= i < s.len() ==> is_digit(#[trigger] s[i])
}

/// What the body of a bracket denotes as an array position: an optional
/// `+`, then one or more decimal digits whose value fits the machine word.
/// Anything else denotes no position.
pub open spec fn parse_index_spec(body: Seq<char>) -> Option<nat> {
    let digits = if body.len() > 0 && body[0] == '+' {
        body.drop_first()
    } else {
        body
    };
    if digits.len() > 0 && all_digits(digits) && decimal_value(digits) <= usize::MAX {
        Some(decimal_value(digits))
    } else {
        None
    }
}

/// The digits read so far never denote more than all the digits do.
proof fn lemma_decimal_value_grows(digits: Seq<char>, n: int)
    requires
        0 <= n <= digits.len(),
        all_digits(digits),
    ensures
        decimal_value(digits.take(n)) <= decimal_value(digits),
    decreases digits.len() - n,
{
    if n < digits.len() {
        lemma_decimal_value_grows(digits, n + 1);
        assert(digits.take(n + 1).drop_last() == digits.take(n));
    } else {
        assert(digits.take(n) == digits);
    }
}

/// Reads the body of a bracket as an array position.
fn parse_index(chars: &Vec<char>) -> (index: Option<usize>)
    ensures
        match index {
            Some(n) => parse_index_spec(chars@) == Some(n as nat),
            None => parse_index_spec(chars@) is None,
        },
{
    let start: usize = if chars.len() > 0 && chars[0] == '+' {
        1
    } else {
        0
    };
    let ghost digits = chars@.subrange(start as int, chars.len() as int);
    assert(digits == if chars@.len() > 0 && chars@[0] == '+' {
        chars@.drop_first()
    } else {
        chars@
    });
    if start == chars.len() {
        return None;
    }
    let mut value: usize = 0;
    let mut i: usize = start;
    while i < chars.len()
        invariant
            start <= i <= chars.len(),
            start < chars.len(),
            digits == chars@.subrange(start as int, chars.len() as int),
            digits == if chars@.len() > 0 && chars@[0] == '+' {
                chars@.drop_first()
            } else {
                chars@
            },
            all_digits(digits.take(i - start)),
            value == decimal_value(digits.take(i - start)),
        decreases chars.len() - i,
    {
        let c = chars[i];
        let ghost seen = digits.take(i - start + 1);
        assert(seen.drop_last() == digits.take(i - start));
        assert(seen.last() == c);
        if !('0' <= c && c <= '9') {
            assert(!is_digit(digits[i - start]));
            return None;
        }
        let d: usize = (c as u32 - '0' as u32) as usize;
        if value > (usize::MAX - d) / 10 {
            proof {
                if all_digits(digits) {
                    lemma_decimal_value_grows(digits, i - start + 1);
                }
            }
            return None;
        }
        value = value * 10 + d;
        assert forall|j: int| 0 <= j < seen.len() implies is_digit(#[trigger] seen[j]) by {
            if j < seen.len() - 1 {
                assert(seen[j] == digits.take(i - start)[j]);
            }
        }
        i += 1;
    }
    assert(digits.take(i - start) == digits);
    Some(value)
}

/// The decimal digit that stands for `d`.
pub open spec fn digit_char(d: nat) -> char {
    (('0' as nat + d) as u8) as char
}

/// The decimal digits of `n`, without leading zeros.
pub open spec fn decimal_digits(n: nat) -> Seq<char>
    decreases n,
{
    if n < 10 {
        seq![digit_char(n)]
    } else {
        decimal_digits(n / 10).push(digit_char(n % 10))
    }
}

/// A key between quotes: every quote in it is preceded by a backslash.
pub open spec fn quoted(key: Seq<char>) -> Seq<char>
    decreases key.len(),
{
    if key.len() == 0 {
        seq![]
    } else if key.last() == '"' {
        quoted(key.drop_last()) + seq!['\\', '"']
    } else {
        quoted(key.drop_last()).push(key.last())
    }
}

/// The text that one step adds to a path.  A key that needs escaping is
/// written as `["key"]`; a bare key is written as it is where it opens the
/// path, and after a dot elsewhere; an index is always written as `[n]`.
pub open spec fn step_text(first: bool, step: Step) -> Seq<char> {
    match step {
        Step::Key(key) => {
            if needs_escaping_spec(key) {
                seq!['[', '"'] + quoted(key) + seq!['"', ']']
            } else if first {
                key
            } else {
                seq!['.'] + key
            }
        },
        Step::Index(n) => seq!['['] + decimal_digits(n) + seq![']'],
    }
}

/// The path that `steps` lead to from `path`.  `first` says whether the
/// first of them opens the path.
pub open spec fn extend(path: Seq<char>, first: bool, steps: Seq<Step>) -> Seq<char>
    decreases steps.len(),
{
    if steps.len() == 0 {
        path
    } else {
        extend(path, first, steps.drop_last()) + step_text(
            first && steps.len() == 1,
            steps.last(),
        )
    }
}

/// The canonical string form of a structured path.
pub open spec fn encode_spec(steps: Seq<Step>) -> Seq<char> {
    extend(seq![], true, steps)
}

/// Taking the first step and then the others leads where taking all of
/// them leads.
pub proof fn lemma_extend_first(path: Seq<char>, first: bool, step: Step, rest: Seq<Step>)
    ensures
        extend(path, first, seq![step] + rest) == extend(
            path + step_text(first, step),
            false,
            rest,
        ),
    decreases rest.len(),
{
    let all = seq![step] + rest;
    if rest.len() == 0 {
        assert(all.drop_last() =~= Seq::<Step>::empty());
        assert(extend(path, first, all.drop_last()) == path);
    } else {
        lemma_extend_first(path, first, step, rest.drop_last());
        assert(all.drop_last() =~= seq![step] + rest.drop_last());
    }
}

/// The decimal digits of `index`.
fn digits_of(index: usize) -> (digits: Vec<char>)
    ensures
        digits@ == decimal_digits(index as nat),
    decreases index,
{
    let low: u8 = (index % 10) as u8;
    let c: char = (48u8 + low) as char;
    if index < 10 {
        let mut digits: Vec<char> = Vec::new();
        digits.push(c);
        assert(digits@ =~= seq![digit_char(index as nat)]);
        digits
    } else {
        let mut digits = digits_of(index / 10);
        digits.push(c);
        digits
    }
}

/// The path `path`, followed by the key `key`.
pub fn append_key(path: &str, first: bool, key: &str) -> (extended: String)
    ensures
        extended@ == path@ + step_text(first, Step::Key(key@)),
{
    let mut extended = path.to_owned();
    if needs_escaping(key) {
        let chars = chars_of(key);
        extended.push('[');
        extended.push('"');
        let ghost opened = extended@;
        let mut i: usize = 0;
        while i < chars.len()
            invariant
                i <= chars.len(),
                extended@ == opened + quoted(chars@.take(i as int)),
            decreases chars.len() - i,
        {
            let c = chars[i];
            assert(chars@.take(i + 1).drop_last() == chars@.take(i as int));
            if c == '"' {
                extended.push('\\');
            }
            extended.push(c);
            i += 1;
        }
        assert(chars@.take(i as int) == chars@);
        extended.push('"');
        extended.push(']');
        assert(extended@ =~= path@ + (seq!['[', '"'] + quoted(key@) + seq!['"', ']']));
    } else if first {
        extended.append(key);
    } else {
        extended.push('.');
        extended.append(key);
        assert(extended@ =~= path@ + (seq!['.'] + key@));
    }
    extended
}

/// The path `path`, followed by the array position `index`.
pub fn append_index(path: &str, index: usize) -> (extended: String)
    ensures
        extended@ == path@ + step_text(false, Step::Index(index as nat)),
{
    let mut extended = path.to_owned();
    let digits = digits_of(index);
    extended.push('[');
    let ghost opened = extended@;
    let mut i: usize = 0;
    while i < digits.len()
        invariant
            i <= digits.len(),
            extended@ == opened + digits@.take(i as int),
        decreases digits.len() - i,
    {
        extended.push(digits[i]);
        i += 1;
    }
    assert(digits@.take(i as int) == digits@);
    extended.push(']');
    assert(extended@ =~= path@ + (seq!['['] + digits@ + seq![']']));
    extended
}

/// The canonical string form of a structured path: the empty string for
/// the empty path, and otherwise the text of each step in turn.
pub fn encode_path(parts: &[PathPart]) -> (path: String)
    ensures
        path@ == encode_spec(steps_of(parts@)),
{
    let mut path = String::new();
    let mut i: usize = 0;
    while i < parts.len()
        invariant
            i <= parts.len(),
            path@ == encode_spec(steps_of(parts@).take(i as int)),
        decreases parts.len() - i,
    {
        let ghost steps = steps_of(parts@).take(i + 1);
        assert(steps.drop_last() == steps_of(parts@).take(i as int));
        assert(steps.last() == parts@[i as int]@);
        path = match &parts[i] {
            PathPart::Key(key) => append_key(path.as_str(), i == 0, key.as_str()),
            PathPart::Index(index) => append_index(path.as_str(), *index),
        };
        i += 1;
    }
    assert(steps_of(parts@).take(i as int) == steps_of(parts@));
    path
}

/// The states of the path scanner.
#[derive(Clone, Copy, Debug, PartialEq, Eq)]
pub enum ScanMode {
    /// Collecting a bare key.
    Plain,
    /// Inside `["`, collecting a quoted key.
    Quoted,
    /// Inside a quoted key, right after a backslash.
    Escaped,
    /// Inside `[`, collecting the body of an index.
    Digits,
}

/// The step that a pending bare key gives: none when nothing is pending.
pub open spec fn flush(pending: Seq<char>) -> Seq<Step> {
    if pending.len() > 0 {
        seq![Step::Key(pending)]
    } else {
        seq![]
    }
}

/// The step that the body of an index bracket gives: none when the body
/// is no array position.
pub open spec fn index_step(body: Seq<char>) -> Seq<Step> {
    match parse_index_spec(body) {
        Some(n) => seq![Step::Index(n)],
        None => seq![],
    }
}

/// The steps that the scanner still gives when it stands before `s[i]` in
/// state `mode`, having collected `pending`.
pub open spec fn parse_from(s: Seq<char>, i: int, mode: ScanMode, pending: Seq<char>) -> Seq<Step>
    decreases s.len() - i,
{
    if i < 0 || i >= s.len() {
        match mode {
            ScanMode::Plain => flush(pending),
            ScanMode::Quoted | ScanMode::Escaped => seq![Step::Key(pending)],
            ScanMode::Digits => index_step(pending),
        }
    } else {
        let c = s[i];
        match mode {
            ScanMode::Plain => {
                if c == '[' {
                    if i + 1 < s.len() && s[i + 1] == '"' {
                        flush(pending) + parse_from(s, i + 2, ScanMode::Quoted, seq![])
                    } else {
                        flush(pending) + parse_from(s, i + 1, ScanMode::Digits, seq![])
                    }
                } else if c == '.' {
                    flush(pending) + parse_from(s, i + 1, ScanMode::Plain, seq![])
                } else {
                    parse_from(s, i + 1, ScanMode::Plain, pending.push(c))
                }
            },
            ScanMode::Quoted => {
                if c == '\\' {
                    parse_from(s, i + 1, ScanMode::Escaped, pending)
                } else if c == '"' {
                    let next = if i + 1 < s.len() && s[i + 1] == ']' {
                        i + 2
                    } else {
                        i + 1
                    };
                    seq![Step::Key(pending)] + parse_from(s, next, ScanMode::Plain, seq![])
                } else {
                    parse_from(s, i + 1, ScanMode::Quoted, pending.push(c))
                }
            },
            ScanMode::Escaped => parse_from(s, i + 1, ScanMode::Quoted, pending.push(c)),
            ScanMode::Digits => {
                if c == ']' {
                    index_step(pending) + parse_from(s, i + 1, ScanMode::Plain, seq![])
                } else {
                    parse_from(s, i + 1, ScanMode::Digits, pending.push(c))
                }
            },
        }
    }
}

/// The steps that a path string denotes.
///
/// The scan is lenient: every string denotes some sequence of steps.  A dot
/// or an opening bracket ends a bare key, and an empty bare key gives no
/// step.  `["` opens a quoted key, in which a backslash takes the next
/// character literally; the key ends at the next quote, and a bracket
/// right after that quote is consumed with it.  Any other `[` opens an
/// index, which runs to the next `]`; a body that is no array position
/// gives no step.  A quoted key or an index that is still open at the end
/// of the string ends there.
pub open spec fn parse_spec(s: Seq<char>) -> Seq<Step> {
    parse_from(s, 0, ScanMode::Plain, seq![])
}

/// The models of the parts, with one more part, are the models with one
/// more model.
proof fn lemma_steps_push(parts: Seq<PathPart>, part: PathPart)
    ensures
        steps_of(parts.push(part)) == steps_of(parts).push(part@),
{
    assert(steps_of(parts.push(part)) =~= steps_of(parts).push(part@));
}

/// Reads a path string into its steps.  The scan never fails: see
/// `parse_spec` for what each string denotes.
pub fn parse_path(path: &str) -> (parts: Vec<PathPart>)
    ensures
        steps_of(parts@) == parse_spec(path@),
{
    let chars = chars_of(path);
    let mut parts: Vec<PathPart> = Vec::new();
    let mut pending: Vec<char> = Vec::new();
    let mut mode = ScanMode::Plain;
    let mut i: usize = 0;
    assert(steps_of(parts@) + parse_from(chars@, 0, mode, pending@) =~= parse_spec(path@));
    while i < chars.len()
        invariant
            i <= chars.len(),
            chars@ == path@,
            steps_of(parts@) + parse_from(chars@, i as int, mode, pending@) == parse_spec(path@),
        decreases chars.len() - i,
    {
        let c = chars[i];
        let ghost before = steps_of(parts@);
        let ghost rest = parse_from(chars@, i as int, mode, pending@);
        match mode {
            ScanMode::Plain => {
                if c == '[' || c == '.' {
                    let ghost flushed = flush(pending@);
                    if pending.len() > 0 {
                        let key = string_of(&pending);
                        proof {
                            lemma_steps_push(parts@, PathPart::Key(key));
                        }
                        parts.push(PathPart::Key(key));
                        pending = Vec::new();
                    }
                    assert(pending@ =~= Seq::<char>::empty());
                    assert(steps_of(parts@) =~= before + flushed);
                    if c == '[' {
                        if i + 1 < chars.len() && chars[i + 1] == '"' {
                            mode = ScanMode::Quoted;
                            i += 2;
                        } else {
                            mode = ScanMode::Digits;
                            i += 1;
                        }
                    } else {
                        i += 1;
                    }
                } else {
                    pending.push(c);
                    i += 1;
                }
            },
            ScanMode::Quoted => {
                if c == '\\' {
                    mode = ScanMode::Escaped;
                    i += 1;
                } else if c == '"' {
                    let key = string_of(&pending);
                    proof {
                        lemma_steps_push(parts@, PathPart::Key(key));
                    }
                    parts.push(PathPart::Key(key));
                    pending = Vec::new();
                    mode = ScanMode::Plain;
                    if i + 1 < chars.len() && chars[i + 1] == ']' {
                        i += 2;
                    } else {
                        i += 1;
                    }
                } else {
                    pending.push(c);
                    i += 1;
                }
            },
            ScanMode::Escaped => {
                pending.push(c);
                mode = ScanMode::Quoted;
                i += 1;
            },
            ScanMode::Digits => {
                if c == ']' {
                    match parse_index(&pending) {
                        Some(index) => {
                            proof {
                                lemma_steps_push(parts@, PathPart::Index(index));
                            }
                            parts.push(PathPart::Index(index));
                        },
                        None => {},
                    }
                    pending = Vec::new();
                    mode = ScanMode::Plain;
                    i += 1;
                } else {
                    pending.push(c);
                    i += 1;
                }
            },
        }
        assert(steps_of(parts@) + parse_from(chars@, i as int, mode, pending@) =~= before + rest);
    }
    let ghost before = steps_of(parts@);
    let ghost rest = parse_from(chars@, i as int, mode, pending@);
    match mode {
        ScanMode::Plain => {
            if pending.len() > 0 {
                let key = string_of(&pending);
                proof {
                    lemma_steps_push(parts@, PathPart::Key(key));
                }
                parts.push(PathPart::Key(key));
            }
        },
        ScanMode::Quoted | ScanMode::Escaped => {
            let key = string_of(&pending);
            proof {
                lemma_steps_push(parts@, PathPart::Key(key));
            }
            parts.push(PathPart::Key(key));
        },
        ScanMode::Digits => {
            match parse_index(&pending) {
                Some(index) => {
                    proof {
                        lemma_steps_push(parts@, PathPart::Index(index));
                    }
                    parts.push(PathPart::Index(index));
                },
                None => {},
            }
        },
    }
    assert(steps_of(parts@) =~= before + rest);
    parts
}

} // verus!

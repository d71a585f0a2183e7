//! The canonical form of a path is read back as the path it was written
//! from, as long as its keys can be told apart from the punctuation.
use super::path::{
    all_digits, decimal_digits, decimal_value, digit_char, encode_spec, flush,
    index_step, is_digit, is_special, needs_escaping_spec, parse_from, parse_index_spec,
    parse_spec, quoted, step_text, ScanMode, Step,
};
use vstd::prelude::*;

verus! {

/// A key survives the round trip through a path string when it is not
/// empty and, where it needs escaping, holds no backslash.
pub open spec fn safe_key(key: Seq<char>) -> bool {
    &&& key.len() > 0
    &&& needs_escaping_spec(key) ==> forall|i: int| 0 <= i < key.len() ==> #[trigger] key[i] != '\\'
}

/// A step survives the round trip when its key is safe, or its position
/// fits the machine word.
pub open spec fn safe_step(step: Step) -> bool {
    match step {
        Step::Key(key) => safe_key(key),
        Step::Index(n) => n <= usize::MAX,
    }
}

/// Whether every one of `steps` survives the round trip.
pub open spec fn safe_steps(steps: Seq<Step>) -> bool {
    forall|i: int| 0 <= i < steps.len() ==> safe_step(#[trigger] steps[i])
}

/// The text from `from` up to `to` in `s` is `text`.
spec fn holds_at(s: Seq<char>, from: int, text: Seq<char>) -> bool {
    &&& 0 <= from
    &&& from + text.len() <= s.len()
    &&& s.subrange(from, from + text.len()) == text
}

/// A text that stands in `s` gives `s` its characters.
proof fn lemma_holds_at_index(s: Seq<char>, from: int, text: Seq<char>, k: int)
    requires
        holds_at(s, from, text),
        0 <= k < text.len(),
    ensures
        s[from + k] == text[k],
{
    assert(s.subrange(from, from + text.len())[k] == s[from + k]);
}

/// Where two texts stand in `s` one after the other as one text, each of
/// them stands there by itself.
proof fn lemma_holds_at_front(s: Seq<char>, from: int, front: Seq<char>, back: Seq<char>)
    requires
        holds_at(s, from, front + back),
    ensures
        holds_at(s, from, front),
        holds_at(s, from + front.len(), back),
{
    let all = front + back;
    assert(s.subrange(from, from + front.len()) =~= front) by {
        assert forall|k: int| 0 <= k < front.len() implies s[from + k] == front[k] by {
            lemma_holds_at_index(s, from, all, k);
        }
    }
    assert(s.subrange(from + front.len(), from + front.len() + back.len()) =~= back) by {
        assert forall|k: int| 0 <= k < back.len() implies s[from + front.len() + k] == back[k] by {
            lemma_holds_at_index(s, from, all, front.len() + k);
        }
    }
}

/// A run of characters that are not special is collected as it stands.
proof fn lemma_scan_plain(s: Seq<char>, from: int, key: Seq<char>, pending: Seq<char>)
    requires
        holds_at(s, from, key),
        !needs_escaping_spec(key),
    ensures
        parse_from(s, from, ScanMode::Plain, pending) == parse_from(
            s,
            from + key.len(),
            ScanMode::Plain,
            pending + key,
        ),
    decreases key.len(),
{
    if key.len() == 0 {
        assert(pending + key =~= pending);
    } else {
        let rest = key.drop_first();
        lemma_holds_at_index(s, from, key, 0);
        assert(!is_special(key[0]));
        assert(key =~= seq![key[0]] + rest);
        lemma_holds_at_front(s, from, seq![key[0]], rest);
        assert forall|i: int| 0 <= i < rest.len() implies !is_special(#[trigger] rest[i]) by {
            assert(rest[i] == key[i + 1]);
        }
        lemma_scan_plain(s, from + 1, rest, pending.push(key[0]));
        assert(pending.push(key[0]) + rest =~= pending + key);
    }
}

/// A quoted key without backslashes of its own is collected as the key.
proof fn lemma_scan_quoted(s: Seq<char>, from: int, key: Seq<char>, pending: Seq<char>)
    requires
        holds_at(s, from, quoted(key)),
        forall|i: int| 0 <= i < key.len() ==> #[trigger] key[i] != '\\',
    ensures
        parse_from(s, from, ScanMode::Quoted, pending) == parse_from(
            s,
            from + quoted(key).len(),
            ScanMode::Quoted,
            pending + key,
        ),
    decreases key.len(),
{
    if key.len() == 0 {
        assert(pending + key =~= pending);
    } else {
        let init = key.drop_last();
        let last = key.last();
        let piece = if last == '"' {
            seq!['\\', '"']
        } else {
            seq![last]
        };
        assert(quoted(key) =~= quoted(init) + piece);
        lemma_holds_at_front(s, from, quoted(init), piece);
        assert forall|i: int| 0 <= i < init.len() implies #[trigger] init[i] != '\\' by {
            assert(init[i] == key[i]);
        }
        lemma_scan_quoted(s, from, init, pending);
        let at = from + quoted(init).len();
        lemma_holds_at_index(s, at, piece, 0);
        assert(key[key.len() - 1] != '\\');
        if last == '"' {
            lemma_holds_at_index(s, at, piece, 1);
            assert(parse_from(s, at, ScanMode::Quoted, pending + init) == parse_from(
                s,
                at + 1,
                ScanMode::Escaped,
                pending + init,
            ));
            assert(parse_from(s, at + 1, ScanMode::Escaped, pending + init) == parse_from(
                s,
                at + 2,
                ScanMode::Quoted,
                (pending + init).push('"'),
            ));
        } else {
            assert(parse_from(s, at, ScanMode::Quoted, pending + init) == parse_from(
                s,
                at + 1,
                ScanMode::Quoted,
                (pending + init).push(last),
            ));
        }
        assert((pending + init).push(last) =~= pending + key);
    }
}

/// A run of digits in a bracket is collected as it stands.
proof fn lemma_scan_digits(s: Seq<char>, from: int, digits: Seq<char>, pending: Seq<char>)
    requires
        holds_at(s, from, digits),
        all_digits(digits),
    ensures
        parse_from(s, from, ScanMode::Digits, pending) == parse_from(
            s,
            from + digits.len(),
            ScanMode::Digits,
            pending + digits,
        ),
    decreases digits.len(),
{
    if digits.len() == 0 {
        assert(pending + digits =~= pending);
    } else {
        let rest = digits.drop_first();
        lemma_holds_at_index(s, from, digits, 0);
        assert(is_digit(digits[0]));
        assert(digits =~= seq![digits[0]] + rest);
        lemma_holds_at_front(s, from, seq![digits[0]], rest);
        assert forall|i: int| 0 <= i < rest.len() implies is_digit(#[trigger] rest[i]) by {
            assert(rest[i] == digits[i + 1]);
        }
        lemma_scan_digits(s, from + 1, rest, pending.push(digits[0]));
        assert(pending.push(digits[0]) + rest =~= pending + digits);
    }
}

/// The decimal digits of a number are digits, and they denote the number.
pub proof fn lemma_decimal_round_trip(n: nat)
    ensures
        decimal_digits(n).len() > 0,
        all_digits(decimal_digits(n)),
        decimal_value(decimal_digits(n)) == n,
    decreases n,
{
    let low = digit_char(n % 10);
    assert(is_digit(low) && low as nat - '0' as nat == n % 10);
    if n < 10 {
        let digits = decimal_digits(n);
        assert(digits.drop_last() =~= Seq::<char>::empty());
        assert(decimal_value(digits.drop_last()) == 0);
    } else {
        lemma_decimal_round_trip(n / 10);
        let digits = decimal_digits(n);
        assert(digits.drop_last() =~= decimal_digits(n / 10));
        assert forall|i: int| 0 <= i < digits.len() implies is_digit(#[trigger] digits[i]) by {
            if i < digits.len() - 1 {
                assert(digits[i] == decimal_digits(n / 10)[i]);
            }
        }
    }
}

/// Where the scanner may stand after a bare key: at the end of the
/// string, or before a dot or an opening bracket.
spec fn at_boundary(s: Seq<char>, at: int) -> bool {
    at == s.len() || (0 <= at < s.len() && (s[at] == '.' || s[at] == '['))
}

/// The text of a safe step is read back as that step.
proof fn lemma_scan_step(s: Seq<char>, from: int, first: bool, step: Step)
    requires
        safe_step(step),
        holds_at(s, from, step_text(first, step)),
        at_boundary(s, from + step_text(first, step).len()),
    ensures
        parse_from(s, from, ScanMode::Plain, seq![]) == seq![step] + parse_from(
            s,
            from + step_text(first, step).len(),
            ScanMode::Plain,
            seq![],
        ),
{
    let text = step_text(first, step);
    let end = from + text.len();
    let after = parse_from(s, end, ScanMode::Plain, seq![]);
    let none = Seq::<char>::empty();
    match step {
        Step::Key(key) => {
            if needs_escaping_spec(key) {
                let body = quoted(key);
                assert(text =~= seq!['[', '"'] + (body + seq!['"', ']']));
                lemma_holds_at_front(s, from, seq!['[', '"'], body + seq!['"', ']']);
                lemma_holds_at_front(s, from + 2, body, seq!['"', ']']);
                lemma_holds_at_index(s, from, seq!['[', '"'], 0);
                lemma_holds_at_index(s, from, seq!['[', '"'], 1);
                lemma_holds_at_index(s, from + 2 + body.len(), seq!['"', ']'], 0);
                lemma_holds_at_index(s, from + 2 + body.len(), seq!['"', ']'], 1);
                lemma_scan_quoted(s, from + 2, key, none);
                assert(none + key =~= key);
                assert(flush(none) + parse_from(s, from + 2, ScanMode::Quoted, none)
                    =~= parse_from(s, from + 2, ScanMode::Quoted, none));
            } else {
                let start = if first {
                    from
                } else {
                    from + 1
                };
                if first {
                    assert(text == key);
                } else {
                    assert(text =~= seq!['.'] + key);
                    lemma_holds_at_front(s, from, seq!['.'], key);
                    lemma_holds_at_index(s, from, seq!['.'], 0);
                    assert(flush(none) + parse_from(s, from + 1, ScanMode::Plain, none)
                        =~= parse_from(s, from + 1, ScanMode::Plain, none));
                }
                lemma_scan_plain(s, start, key, none);
                assert(none + key =~= key);
                assert(flush(key) == seq![step]);
                if end == s.len() {
                    assert(after =~= Seq::<Step>::empty());
                    assert(flush(key) =~= seq![step] + after);
                } else {
                    assert(flush(none) + parse_from(s, end + 1, ScanMode::Plain, none)
                        =~= parse_from(s, end + 1, ScanMode::Plain, none));
                    assert(flush(none) + parse_from(s, end + 1, ScanMode::Digits, none)
                        =~= parse_from(s, end + 1, ScanMode::Digits, none));
                    assert(flush(none) + parse_from(s, end + 2, ScanMode::Quoted, none)
                        =~= parse_from(s, end + 2, ScanMode::Quoted, none));
                }
            }
        },
        Step::Index(n) => {
            let digits = decimal_digits(n);
            lemma_decimal_round_trip(n);
            assert(text =~= seq!['['] + (digits + seq![']']));
            lemma_holds_at_front(s, from, seq!['['], digits + seq![']']);
            lemma_holds_at_front(s, from + 1, digits, seq![']']);
            lemma_holds_at_index(s, from, seq!['['], 0);
            lemma_holds_at_index(s, from + 1, digits, 0);
            lemma_holds_at_index(s, from + 1 + digits.len(), seq![']'], 0);
            assert(is_digit(digits[0]));
            lemma_scan_digits(s, from + 1, digits, none);
            assert(none + digits =~= digits);
            assert(parse_index_spec(digits) == Some(n));
            assert(index_step(digits) == seq![step]);
            assert(flush(none) + parse_from(s, from + 1, ScanMode::Digits, none)
                =~= parse_from(s, from + 1, ScanMode::Digits, none));
        },
    }
}

/// The path of the first `m` steps opens the path of all steps.
proof fn lemma_encode_prefix(steps: Seq<Step>, m: int)
    requires
        0 <= m <= steps.len(),
    ensures
        holds_at(encode_spec(steps), 0, encode_spec(steps.take(m))),
    decreases steps.len() - m,
{
    let s = encode_spec(steps);
    if m == steps.len() {
        assert(steps.take(m) =~= steps);
        assert(s.subrange(0, s.len() as int) =~= s);
    } else {
        lemma_encode_prefix(steps, m + 1);
        let longer = steps.take(m + 1);
        assert(longer.drop_last() =~= steps.take(m));
        lemma_holds_at_front(
            s,
            0,
            encode_spec(steps.take(m)),
            step_text(m == 0, steps[m]),
        );
    }
}

/// The path of the first `m` steps is the path of the first `m - 1`,
/// followed by the text of the `m`-th.
proof fn lemma_encode_take(steps: Seq<Step>, m: int)
    requires
        0 < m <= steps.len(),
    ensures
        encode_spec(steps.take(m)) == encode_spec(steps.take(m - 1)) + step_text(
            m == 1,
            steps[m - 1],
        ),
{
    assert(steps.take(m).drop_last() =~= steps.take(m - 1));
}

/// In the canonical form of a path, the text of each step stands where
/// the path of the steps before it ends, and is followed by the end of the
/// string, a dot or an opening bracket.
proof fn lemma_text_of_step(steps: Seq<Step>, m: int)
    requires
        0 < m <= steps.len(),
    ensures
        holds_at(
            encode_spec(steps),
            encode_spec(steps.take(m - 1)).len() as int,
            step_text(m == 1, steps[m - 1]),
        ),
        at_boundary(encode_spec(steps), encode_spec(steps.take(m)).len() as int),
{
    let s = encode_spec(steps);
    let text = step_text(m == 1, steps[m - 1]);
    lemma_encode_take(steps, m);
    lemma_encode_prefix(steps, m);
    lemma_holds_at_front(s, 0, encode_spec(steps.take(m - 1)), text);
    let end = encode_spec(steps.take(m)).len() as int;
    if m < steps.len() {
        let next = step_text(false, steps[m]);
        lemma_encode_take(steps, m + 1);
        lemma_encode_prefix(steps, m + 1);
        lemma_holds_at_front(s, 0, encode_spec(steps.take(m)), next);
        assert(next.len() > 0 && (next[0] == '.' || next[0] == '['));
        lemma_holds_at_index(s, end, next, 0);
    } else {
        assert(steps.take(m) =~= steps);
    }
}

/// The steps of a safe path are read back from its canonical form, one
/// after another.
proof fn lemma_scan_steps(steps: Seq<Step>, m: int)
    requires
        safe_steps(steps),
        0 <= m <= steps.len(),
    ensures
        parse_spec(encode_spec(steps)) == steps.take(m) + parse_from(
            encode_spec(steps),
            encode_spec(steps.take(m)).len() as int,
            ScanMode::Plain,
            seq![],
        ),
    decreases m,
{
    let s = encode_spec(steps);
    if m == 0 {
        assert(steps.take(0) =~= Seq::<Step>::empty());
        assert(encode_spec(steps.take(0)).len() == 0);
        assert(steps.take(0) + parse_spec(s) =~= parse_spec(s));
    } else {
        lemma_scan_steps(steps, m - 1);
        let step = steps[m - 1];
        let from = encode_spec(steps.take(m - 1)).len() as int;
        let end = encode_spec(steps.take(m)).len() as int;
        lemma_encode_take(steps, m);
        lemma_text_of_step(steps, m);
        lemma_scan_step(s, from, m == 1, step);
        let rest = parse_from(s, end, ScanMode::Plain, seq![]);
        assert(steps.take(m - 1) + (seq![step] + rest) =~= steps.take(m) + rest);
    }
}

/// Reading the canonical form of a path gives the path back, and writing
/// what was read gives the canonical form again, for every path whose
/// steps are safe.
///
/// Other paths need not come back: the canonical form of a path with an
/// empty key holds no trace of that key, and a backslash in a quoted key
/// is read as an escape.
pub proof fn lemma_canonical_round_trip(steps: Seq<Step>)
    requires
        safe_steps(steps),
    ensures
        parse_spec(encode_spec(steps)) == steps,
        encode_spec(parse_spec(encode_spec(steps))) == encode_spec(steps),
{
    lemma_scan_steps(steps, steps.len() as int);
    assert(steps.take(steps.len() as int) =~= steps);
    let s = encode_spec(steps);
    assert(parse_from(s, s.len() as int, ScanMode::Plain, seq![]) =~= Seq::<Step>::empty());
    assert(steps + Seq::<Step>::empty() =~= steps);
}

} // verus!

//! The text format of saved games: a header line, a line of key-value pairs
//! for the initial state, the number of players, one line `<index>P<player>`
//! per decision of the log, a line `C`, and the decisions of the redo stack.

use vstd::prelude::*;
use vstd::string::{StrSliceExecFns, StringExecFns};
use crate::game::engine::logging::{EventLog, SerializedLog};
use crate::game::engine::{Engine, LoggingEngine};
use crate::game::trait_definitions::{Decision, GameData};

verus! {

/// The separator between the option index and the player of a decision.
pub const PLAYER_SEPARATOR: char = 'P';

/// The line that separates the log from the redo stack.
pub const CURRENT_STATE: char = 'C';

/// Why a saved game could not be loaded.
#[derive(Debug)]
pub enum LoadGameError {
    /// Syntactic error in the given line (counted from 1).
    InvalidFileContent { line: usize, msg: String },
    /// Semantic error: the index is not valid for the decision.
    InvalidDecisionIndex { decision_nr: usize, index: usize, max_index: usize },
    /// Semantic error: the game state expects a different player.
    UnexpectedPlayer { decision_nr: usize, player: usize, expected_player: usize },
    /// Semantic error: a decision is given, but the game is over.
    GameAlreadyFinished { decision_nr: usize },
}

impl From<String> for LoadGameError {
    fn from(value: String) -> (r: Self) {
        LoadGameError::InvalidFileContent { line: 0, msg: value }
    }
}

impl vstd::std_specs::convert::FromSpecImpl<String> for LoadGameError {
    open spec fn obeys_from_spec() -> bool {
        true
    }

    open spec fn from_spec(v: String) -> Self {
        LoadGameError::InvalidFileContent { line: 0, msg: v }
    }
}

// ----- the model of the format -----

/// ASCII whitespace, as `split_ascii_whitespace` separates words.
pub open spec fn is_ascii_ws(c: char) -> bool {
    c == ' ' || c == '\t' || c == '\n' || c == '\x0C' || c == '\r'
}

/// The kinds of separators that split a text.
#[derive(Debug, Clone, Copy, PartialEq, Eq, Structural)]
pub enum Separator {
    Newline,
    Whitespace,
    Player,
}

pub open spec fn is_separator(sep: Separator, c: char) -> bool {
    match sep {
        Separator::Newline => c == '\n',
        Separator::Whitespace => is_ascii_ws(c),
        Separator::Player => c == PLAYER_SEPARATOR,
    }
}

/// The pieces between the separators of a text; there is one more piece
/// than separators.
pub open spec fn pieces(t: Seq<char>, sep: Separator) -> Seq<Seq<char>>
    decreases t.len(),
{
    if t.len() == 0 {
        seq![Seq::<char>::empty()]
    } else {
        let p = pieces(t.drop_last(), sep);
        if is_separator(sep, t.last()) {
            p.push(Seq::<char>::empty())
        } else {
            p.update(p.len() - 1, p.last().push(t.last()))
        }
    }
}

/// The lines of a text as `read_line` yields them, without the newline: a
/// text that ends with a newline has no empty last line.
pub open spec fn spec_lines(t: Seq<char>) -> Seq<Seq<char>> {
    let p = pieces(t, Separator::Newline);
    if p.last().len() == 0 {
        p.drop_last()
    } else {
        p
    }
}

/// The line with the given position; reading past the end yields an empty
/// line.
pub open spec fn line_at(lines: Seq<Seq<char>>, k: int) -> Seq<char> {
    if 0 <= k < lines.len() {
        lines[k]
    } else {
        Seq::<char>::empty()
    }
}

/// Keeps the pieces that are words: those that are not empty.
pub open spec fn word_filter() -> spec_fn(Seq<char>) -> bool {
    |w: Seq<char>| w.len() > 0
}

/// The words of a line, as `split_ascii_whitespace` yields them.
pub open spec fn spec_words(s: Seq<char>) -> Seq<Seq<char>> {
    pieces(s, Separator::Whitespace).filter(word_filter())
}

/// Consecutive words as key-value pairs.
pub open spec fn pairs_of(words: Seq<Seq<char>>) -> Seq<(Seq<char>, Seq<char>)> {
    Seq::new(words.len() / 2, |k: int| (words[2 * k], words[2 * k + 1]))
}

pub open spec fn is_digit(c: char) -> bool {
    '0' <= c && c <= '9'
}

/// The value of a sequence of decimal digits.
pub open spec fn decimal_value(d: Seq<char>) -> nat
    decreases d.len(),
{
    if d.len() == 0 {
        0
    } else {
        decimal_value(d.drop_last()) * 10 + ((d.last() as nat) - ('0' as nat)) as nat
    }
}

/// The number that a text denotes, as `str::parse::<usize>` documents it:
/// an optional `+` followed by at least one decimal digit, with a value
/// that fits in `usize`.
pub open spec fn spec_parse_usize(s: Seq<char>) -> Option<usize> {
    let d = if s.len() > 0 && s[0] == '+' {
        s.drop_first()
    } else {
        s
    };
    if d.len() > 0 && (forall|k: int| 0 <= k < d.len() ==> is_digit(#[trigger] d[k])) && decimal_value(d)
        <= usize::MAX {
        Some(decimal_value(d) as usize)
    } else {
        None
    }
}

/// The message of the error that `str::parse::<usize>` gives for a text.
pub uninterp spec fn parse_usize_message(s: Seq<char>) -> Seq<char>;

/// What a scan of the decision lines gives.
pub enum Scan {
    Failed(nat, Seq<char>),
    Done(Seq<(usize, usize)>, Seq<(usize, usize)>),
}

/// The decision lines from line `k` on (counted from 0): the log before the
/// line `C`, the redo stack after it.
pub open spec fn spec_scan(
    lines: Seq<Seq<char>>,
    k: int,
    found: bool,
    log: Seq<(usize, usize)>,
    redo: Seq<(usize, usize)>,
) -> Scan
    decreases lines.len() - k,
{
    if k >= lines.len() || k < 0 {
        Scan::Done(log, redo)
    } else {
        let l = lines[k];
        if l == seq![CURRENT_STATE] {
            if found {
                Scan::Failed((k + 1) as nat, "Current state is ambiguous"@)
            } else {
                spec_scan(lines, k + 1, true, log, redo)
            }
        } else {
            let parts = pieces(l, Separator::Player);
            if parts.len() == 2 {
                match spec_parse_usize(parts[0]) {
                    None => Scan::Failed((k + 1) as nat, "Invalid number: "@ + parse_usize_message(parts[0])),
                    Some(index) => match spec_parse_usize(parts[1]) {
                        None => Scan::Failed((k + 1) as nat, "Invalid number: "@ + parse_usize_message(parts[1])),
                        Some(player) => if found {
                            spec_scan(lines, k + 1, found, log, redo.push((index, player)))
                        } else {
                            spec_scan(lines, k + 1, found, log.push((index, player)), redo)
                        },
                    },
                }
            } else {
                Scan::Failed((k + 1) as nat, "Invalid line: "@ + l + ", expected: <dec>P<player>"@)
            }
        }
    }
}

/// What parsing a saved game gives.
pub enum Parsed {
    Failed(nat, Seq<char>),
    Game(Seq<(Seq<char>, Seq<char>)>, usize, Seq<(usize, usize)>, Seq<(usize, usize)>),
}

/// The saved game that a text holds, or the first line that is wrong.
pub open spec fn spec_parse_saved_game(t: Seq<char>, expected: Seq<char>) -> Parsed {
    let lines = spec_lines(t);
    let header = line_at(lines, 0);
    if header != expected {
        Parsed::Failed(1, "Invalid header: "@ + header + ", expected: "@ + expected)
    } else {
        let words = spec_words(line_at(lines, 1));
        if words.len() % 2 == 1 {
            Parsed::Failed(2, "Uneven number of key-value entries"@)
        } else {
            match spec_parse_usize(line_at(lines, 2)) {
                None => Parsed::Failed(3, "Expected player number"@),
                Some(num_players) => match spec_scan(lines, 3, false, Seq::empty(), Seq::empty()) {
                    Scan::Failed(line, msg) => Parsed::Failed(line, msg),
                    Scan::Done(log, redo) => Parsed::Game(pairs_of(words), num_players, log, redo),
                },
            }
        }
    }
}

// ----- calls into std -----

/// Parses a number with `str::parse::<usize>`: the number as
/// `spec_parse_usize` describes it, or the text of the error, which is
/// named by `parse_usize_message`.
#[verifier::external_body]
fn parse_usize(s: &str) -> (r: Result<usize, String>)
    ensures
        r is Ok == spec_parse_usize(s@) is Some,
        r matches Ok(n) ==> Some(n) == spec_parse_usize(s@),
        r matches Err(e) ==> e@ == parse_usize_message(s@),
{
    match s.parse::<usize>() {
        Ok(n) => Ok(n),
        Err(e) => Err(format!("{}", e)),
    }
}

// ----- reading -----

/// The characters of a text.
fn text_chars(text: &str) -> (r: Vec<char>)
    ensures
        r@ == text@,
{
    let n = text.unicode_len();
    let mut chars: Vec<char> = Vec::new();
    let mut k: usize = 0;
    while k < n
        invariant
            n == text@.len(),
            k <= n,
            chars@ == text@.subrange(0, k as int),
        decreases n - k,
    {
        chars.push(text.get_char(k));
        k += 1;
        assert(chars@ =~= text@.subrange(0, k as int));
    }
    assert(chars@ =~= text@);
    chars
}

fn is_separator_char(sep: Separator, c: char) -> (r: bool)
    ensures
        r == is_separator(sep, c),
{
    match sep {
        Separator::Newline => c == '\n',
        Separator::Whitespace => c == ' ' || c == '\t' || c == '\n' || c == '\x0C' || c == '\r',
        Separator::Player => c == PLAYER_SEPARATOR,
    }
}

/// The bounds of the pieces of `chars[from..to]` between separators.
fn split_bounds(chars: &Vec<char>, from: usize, to: usize, sep: Separator) -> (r: Vec<(usize, usize)>)
    requires
        from <= to <= chars@.len(),
    ensures
        r@.len() >= 1,
        r@.len() == pieces(chars@.subrange(from as int, to as int), sep).len(),
        forall|k: int|
            0 <= k < r@.len() ==> from <= (#[trigger] r@[k]).0 <= r@[k].1 <= to && chars@.subrange(
                r@[k].0 as int,
                r@[k].1 as int,
            ) == pieces(chars@.subrange(from as int, to as int), sep)[k],
{
    let mut result: Vec<(usize, usize)> = Vec::new();
    let mut start = from;
    let mut i = from;
    proof {
        assert(chars@.subrange(from as int, from as int) =~= Seq::<char>::empty());
    }
    while i < to
        invariant
            from <= start <= i <= to <= chars@.len(),
            result@.len() + 1 == pieces(chars@.subrange(from as int, i as int), sep).len(),
            forall|k: int|
                0 <= k < result@.len() ==> from <= (#[trigger] result@[k]).0 <= result@[k].1 <= i && chars@.subrange(
                    result@[k].0 as int,
                    result@[k].1 as int,
                ) == pieces(chars@.subrange(from as int, i as int), sep)[k],
            chars@.subrange(start as int, i as int) == pieces(chars@.subrange(from as int, i as int), sep).last(),
        decreases to - i,
    {
        let ghost before = chars@.subrange(from as int, i as int);
        let ghost after = chars@.subrange(from as int, i + 1);
        assert(after.drop_last() =~= before);
        assert(after.last() == chars@[i as int]);
        if is_separator_char(sep, chars[i]) {
            result.push((start, i));
            start = i + 1;
            i += 1;
            assert(chars@.subrange(start as int, i as int) =~= Seq::<char>::empty());
        } else {
            i += 1;
            assert(chars@.subrange(start as int, i as int) =~= chars@.subrange(start as int, (i - 1) as int).push(
                chars@[i - 1],
            ));
        }
    }
    result.push((start, to));
    result
}

/// Whether `chars[a..b]` is the text.
fn range_equals(chars: &Vec<char>, a: usize, b: usize, text: &Vec<char>) -> (r: bool)
    requires
        a <= b <= chars@.len(),
    ensures
        r == (chars@.subrange(a as int, b as int) == text@),
{
    if b - a != text.len() {
        return false;
    }
    let mut k: usize = 0;
    while k < text.len()
        invariant
            a <= b <= chars@.len(),
            b - a == text@.len(),
            k <= text@.len(),
            forall|j: int| 0 <= j < k ==> chars@[a + j] == text@[j],
        decreases text@.len() - k,
    {
        if chars[a + k] != text[k] {
            assert(chars@.subrange(a as int, b as int)[k as int] != text@[k as int]);
            return false;
        }
        k += 1;
    }
    assert(chars@.subrange(a as int, b as int) =~= text@);
    true
}

/// A text with the characters `chars[a..b]` of the text `text`.
fn substring(text: &str, a: usize, b: usize) -> (r: String)
    requires
        a <= b <= text@.len(),
    ensures
        r@ == text@.subrange(a as int, b as int),
{
    String::from_str(text.substring_char(a, b))
}

/// The result of parsing is the saved game or the error that the model
/// gives.
pub open spec fn parse_result_matches(
    r: Result<(Vec<(String, String)>, usize, SerializedLog), LoadGameError>,
    p: Parsed,
) -> bool {
    match p {
        Parsed::Failed(line, msg) => r matches Err(LoadGameError::InvalidFileContent { line: l, msg: m }) && l == line
            && m@ == msg,
        Parsed::Game(pairs, num_players, log, redo) => r matches Ok((v, n, sl)) && v@.len() == pairs.len() && (forall|
            i: int,
        | 0 <= i < v@.len() ==> (#[trigger] v@[i]).0@ == pairs[i].0 && v@[i].1@ == pairs[i].1) && n == num_players
            && sl.log@ == log && sl.redo_stack@ == redo,
    }
}

/// An error in the given line with the given message.
fn file_error(line: usize, msg: String) -> (r: LoadGameError)
    ensures
        r == (LoadGameError::InvalidFileContent { line, msg }),
{
    LoadGameError::InvalidFileContent { line, msg }
}

/// The bounds of the non-empty pieces, in order.
fn non_empty(bounds: &Vec<(usize, usize)>, Ghost(chars): Ghost<Seq<char>>, Ghost(all): Ghost<Seq<Seq<char>>>) -> (r: Vec<
    (usize, usize),
>)
    requires
        bounds@.len() == all.len(),
        forall|k: int|
            0 <= k < bounds@.len() ==> (#[trigger] bounds@[k]).0 <= bounds@[k].1 <= chars.len() && chars.subrange(
                bounds@[k].0 as int,
                bounds@[k].1 as int,
            ) == all[k],
    ensures
        r@.len() == all.filter(word_filter()).len(),
        forall|k: int|
            0 <= k < r@.len() ==> (#[trigger] r@[k]).0 <= r@[k].1 <= chars.len() && chars.subrange(
                r@[k].0 as int,
                r@[k].1 as int,
            ) == all.filter(word_filter())[k],
{
    let mut result: Vec<(usize, usize)> = Vec::new();
    let mut k: usize = 0;
    while k < bounds.len()
        invariant
            k <= bounds@.len(),
            bounds@.len() == all.len(),
            forall|j: int|
                0 <= j < bounds@.len() ==> (#[trigger] bounds@[j]).0 <= bounds@[j].1 <= chars.len() && chars.subrange(
                    bounds@[j].0 as int,
                    bounds@[j].1 as int,
                ) == all[j],
            result@.len() == all.take(k as int).filter(word_filter()).len(),
            forall|j: int|
                0 <= j < result@.len() ==> (#[trigger] result@[j]).0 <= result@[j].1 <= chars.len() && chars.subrange(
                    result@[j].0 as int,
                    result@[j].1 as int,
                ) == all.take(k as int).filter(word_filter())[j],
        decreases bounds@.len() - k,
    {
        let (a, b) = bounds[k];
        let ghost t = all.take(k + 1);
        assert(t.len() == k + 1);
        assert(t.drop_last() =~= all.take(k as int));
        assert(t.last() == all[k as int]);
        reveal(Seq::filter);
        assert(t.filter(word_filter()) == if word_filter()(t.last()) {
            t.drop_last().filter(word_filter()).push(t.last())
        } else {
            t.drop_last().filter(word_filter())
        });
        assert(all.take(k + 1).filter(word_filter()) == if word_filter()(all[k as int]) {
            all.take(k as int).filter(word_filter()).push(all[k as int])
        } else {
            all.take(k as int).filter(word_filter())
        });
        if a < b {
            result.push((a, b));
        }
        k += 1;
    }
    assert(all.take(bounds@.len() as int) =~= all);
    proof {
        reveal(Seq::filter);
    }
    result
}

/// Reads a saved game: the key-value pairs of the initial state, the number
/// of players and the log; fails with the first line that does not fit the
/// format.
pub fn parse_saved_game(text: &str, expected_header: &str) -> (r: Result<
    (Vec<(String, String)>, usize, SerializedLog),
    LoadGameError,
>)
    ensures
        parse_result_matches(r, spec_parse_saved_game(text@, expected_header@)),
{
    let chars = text_chars(text);
    let n = chars.len();
    let all = split_bounds(&chars, 0, n, Separator::Newline);
    let ghost lines = spec_lines(text@);
    proof {
        assert(chars@.subrange(0, n as int) =~= text@);
    }
    let last = all.len() - 1;
    let nlines = if all[last].0 == all[last].1 {
        last
    } else {
        all.len()
    };
    assert(nlines == lines.len());
    assert forall|k: int| 0 <= k < nlines implies chars@.subrange(all@[k].0 as int, all@[k].1 as int) == lines[k] by {
        assert(chars@.subrange(all@[k].0 as int, all@[k].1 as int) == pieces(text@, Separator::Newline)[k]);
    }
    // the header
    let (a0, b0) = if 0 < nlines {
        all[0]
    } else {
        (0, 0)
    };
    assert(chars@.subrange(a0 as int, b0 as int) == line_at(lines, 0));
    let expected = text_chars(expected_header);
    if !range_equals(&chars, a0, b0, &expected) {
        let mut msg = String::from_str("Invalid header: ");
        let header = substring(text, a0, b0);
        msg.append(header.as_str());
        msg.append(", expected: ");
        msg.append(expected_header);
        return Err(file_error(1, msg));
    }
    // the initial state
    let (a1, b1) = if 1 < nlines {
        all[1]
    } else {
        (0, 0)
    };
    assert(chars@.subrange(a1 as int, b1 as int) == line_at(lines, 1));
    let word_pieces = split_bounds(&chars, a1, b1, Separator::Whitespace);
    let words = non_empty(
        &word_pieces,
        Ghost(chars@),
        Ghost(pieces(chars@.subrange(a1 as int, b1 as int), Separator::Whitespace)),
    );
    let ghost spec_w = spec_words(line_at(lines, 1));
    if words.len() % 2 == 1 {
        return Err(file_error(2, String::from_str("Uneven number of key-value entries")));
    }
    let mut pairs: Vec<(String, String)> = Vec::new();
    let mut j: usize = 0;
    while j < words.len() / 2
        invariant
            words@.len() == spec_w.len(),
            words@.len() % 2 == 0,
            forall|k: int|
                0 <= k < words@.len() ==> (#[trigger] words@[k]).0 <= words@[k].1 <= chars@.len() && chars@.subrange(
                    words@[k].0 as int,
                    words@[k].1 as int,
                ) == spec_w[k],
            chars@ == text@,
            j <= words@.len() / 2,
            pairs@.len() == j,
            forall|k: int| 0 <= k < j ==> (#[trigger] pairs@[k]).0@ == pairs_of(spec_w)[k].0 && pairs@[k].1@ == pairs_of(
                spec_w,
            )[k].1,
        decreases words@.len() / 2 - j,
    {
        let (ka, kb) = words[2 * j];
        let (va, vb) = words[2 * j + 1];
        let key = substring(text, ka, kb);
        let val = substring(text, va, vb);
        pairs.push((key, val));
        j += 1;
    }
    // the number of players
    let (a2, b2) = if 2 < nlines {
        all[2]
    } else {
        (0, 0)
    };
    assert(chars@.subrange(a2 as int, b2 as int) == line_at(lines, 2));
    let num_players = match parse_usize(text.substring_char(a2, b2)) {
        Ok(num) => num,
        Err(_) => {
            return Err(file_error(3, String::from_str("Expected player number")));
        },
    };
    // the decisions
    match scan_decisions(text, &chars, &all, nlines, Ghost(lines)) {
        Ok(log) => Ok((pairs, num_players, log)),
        Err(e) => Err(e),
    }
}

/// The option index and the player of a decision line `chars[a..b]`, or
/// the message of the error.
fn parse_decision_line(text: &str, chars: &Vec<char>, a: usize, b: usize) -> (r: Result<(usize, usize), String>)
    requires
        chars@ == text@,
        a <= b <= chars@.len(),
    ensures
        ({
            let l = chars@.subrange(a as int, b as int);
            let parts = pieces(l, Separator::Player);
            if parts.len() == 2 {
                match spec_parse_usize(parts[0]) {
                    None => r matches Err(m) && m@ == "Invalid number: "@ + parse_usize_message(parts[0]),
                    Some(index) => match spec_parse_usize(parts[1]) {
                        None => r matches Err(m) && m@ == "Invalid number: "@ + parse_usize_message(parts[1]),
                        Some(player) => r == Ok::<(usize, usize), String>((index, player)),
                    },
                }
            } else {
                r matches Err(m) && m@ == "Invalid line: "@ + l + ", expected: <dec>P<player>"@
            }
        }),
{
    let parts = split_bounds(chars, a, b, Separator::Player);
    if parts.len() == 2 {
        let (ia, ib) = parts[0];
        let (pa, pb) = parts[1];
        let index = match parse_usize(text.substring_char(ia, ib)) {
            Ok(v) => v,
            Err(e) => {
                let mut msg = String::from_str("Invalid number: ");
                msg.append(e.as_str());
                return Err(msg);
            },
        };
        let player = match parse_usize(text.substring_char(pa, pb)) {
            Ok(v) => v,
            Err(e) => {
                let mut msg = String::from_str("Invalid number: ");
                msg.append(e.as_str());
                return Err(msg);
            },
        };
        Ok((index, player))
    } else {
        let mut msg = String::from_str("Invalid line: ");
        let line = substring(text, a, b);
        msg.append(line.as_str());
        msg.append(", expected: <dec>P<player>");
        Err(msg)
    }
}

/// The log and the redo stack of the decision lines, from the fourth line
/// on.
fn scan_decisions(
    text: &str,
    chars: &Vec<char>,
    all: &Vec<(usize, usize)>,
    nlines: usize,
    Ghost(lines): Ghost<Seq<Seq<char>>>,
) -> (r: Result<SerializedLog, LoadGameError>)
    requires
        chars@ == text@,
        nlines == lines.len(),
        nlines <= all@.len(),
        forall|i: int| 0 <= i < all@.len() ==> (#[trigger] all@[i]).0 <= all@[i].1 <= chars@.len(),
        forall|i: int| 0 <= i < nlines ==> chars@.subrange(all@[i].0 as int, all@[i].1 as int) == lines[i],
    ensures
        match spec_scan(lines, 3, false, Seq::empty(), Seq::empty()) {
            Scan::Failed(line, msg) => r matches Err(LoadGameError::InvalidFileContent { line: l, msg: m }) && l
                == line && m@ == msg,
            Scan::Done(log, redo) => r matches Ok(sl) && sl.log@ == log && sl.redo_stack@ == redo,
        },
{
    let mut log: Vec<(usize, usize)> = Vec::new();
    let mut redo_stack: Vec<(usize, usize)> = Vec::new();
    let mut found = false;
    let mut k: usize = 3;
    while k < nlines
        invariant
            3 <= k,
            nlines == lines.len(),
            nlines <= all@.len(),
            chars@ == text@,
            forall|i: int| 0 <= i < all@.len() ==> (#[trigger] all@[i]).0 <= all@[i].1 <= chars@.len(),
            forall|i: int| 0 <= i < nlines ==> chars@.subrange(all@[i].0 as int, all@[i].1 as int) == lines[i],
            spec_scan(lines, 3, false, Seq::empty(), Seq::empty()) == spec_scan(lines, k as int, found, log@, redo_stack@),
        decreases nlines - k,
    {
        let (a, b) = all[k];
        let ghost l = lines[k as int];
        assert(chars@.subrange(a as int, b as int) == l);
        if b - a == 1 && chars[a] == CURRENT_STATE {
            assert(l =~= seq![CURRENT_STATE]);
            if found {
                return Err(file_error(k + 1, String::from_str("Current state is ambiguous")));
            }
            found = true;
        } else {
            assert(l != seq![CURRENT_STATE]) by {
                if l == seq![CURRENT_STATE] {
                    assert(l[0] == chars@[a as int]);
                }
            }
            match parse_decision_line(text, chars, a, b) {
                Ok((index, player)) => {
                    if found {
                        redo_stack.push((index, player));
                    } else {
                        log.push((index, player));
                    }
                },
                Err(msg) => {
                    return Err(file_error(k + 1, msg));
                },
            }
        }
        k += 1;
    }
    Ok(SerializedLog { log, redo_stack })
}

// ----- writing -----

/// The decimal digit with value `d`.
pub open spec fn digit_char(d: nat) -> char {
    ((('0' as nat) + d) as u32) as char
}

/// The decimal representation of a number.
pub open spec fn decimal(n: nat) -> Seq<char>
    decreases n,
{
    if n < 10 {
        seq![digit_char(n)]
    } else {
        decimal(n / 10).push(digit_char(n % 10))
    }
}

/// The key-value pairs, each as `key value`, separated by spaces.
pub open spec fn joined_pairs(pairs: Seq<(Seq<char>, Seq<char>)>) -> Seq<char>
    decreases pairs.len(),
{
    if pairs.len() == 0 {
        Seq::<char>::empty()
    } else if pairs.len() == 1 {
        pairs[0].0 + seq![' '] + pairs[0].1
    } else {
        joined_pairs(pairs.drop_last()) + seq![' '] + pairs.last().0 + seq![' '] + pairs.last().1
    }
}

/// The lines `<index>P<player>` of the decisions.
pub open spec fn decision_lines(log: Seq<(usize, usize)>) -> Seq<char>
    decreases log.len(),
{
    if log.len() == 0 {
        Seq::<char>::empty()
    } else {
        decision_lines(log.drop_last()) + decimal(log.last().0 as nat) + seq![PLAYER_SEPARATOR] + decimal(
            log.last().1 as nat,
        ) + seq!['\n']
    }
}

/// The text of a saved game.
pub open spec fn spec_saved_game(
    header: Seq<char>,
    pairs: Seq<(Seq<char>, Seq<char>)>,
    num_players: usize,
    log: Seq<(usize, usize)>,
    redo: Seq<(usize, usize)>,
) -> Seq<char> {
    header + seq!['\n'] + joined_pairs(pairs) + seq!['\n'] + decimal(num_players as nat) + seq!['\n'] + decision_lines(log)
        + seq![CURRENT_STATE, '\n'] + decision_lines(redo)
}

/// The views of key-value pairs of strings.
pub open spec fn pair_views(v: Seq<(String, String)>) -> Seq<(Seq<char>, Seq<char>)> {
    Seq::new(v.len(), |k: int| (v[k].0@, v[k].1@))
}

/// A key or value holds no space and no newline.
pub open spec fn is_plain_word(s: Seq<char>) -> bool {
    forall|k: int| 0 <= k < s.len() ==> s[k] != ' ' && s[k] != '\n'
}

/// A text with the digit `d`.
fn digit_text(d: usize) -> (r: &'static str)
    requires
        d < 10,
    ensures
        r@ == seq![digit_char(d as nat)],
{
    proof {
        reveal_strlit("0");
        reveal_strlit("1");
        reveal_strlit("2");
        reveal_strlit("3");
        reveal_strlit("4");
        reveal_strlit("5");
        reveal_strlit("6");
        reveal_strlit("7");
        reveal_strlit("8");
        reveal_strlit("9");
    }
    match d {
        0 => "0",
        1 => "1",
        2 => "2",
        3 => "3",
        4 => "4",
        5 => "5",
        6 => "6",
        7 => "7",
        8 => "8",
        _ => "9",
    }
}

/// Appends the decimal representation of a number.
fn append_decimal(out: &mut String, n: usize)
    ensures
        final(out)@ == old(out)@ + decimal(n as nat),
    decreases n,
{
    if n >= 10 {
        append_decimal(out, n / 10);
    }
    out.append(digit_text(n % 10));
    assert(final(out)@ =~= old(out)@ + decimal(n as nat)) by {
        if n >= 10 {
            assert(decimal(n as nat) == decimal((n / 10) as nat).push(digit_char((n % 10) as nat)));
        }
    }
}

/// Appends the lines of the decisions.
fn append_decisions(out: &mut String, log: &Vec<(usize, usize)>)
    ensures
        final(out)@ == old(out)@ + decision_lines(log@),
{
    let ghost start = out@;
    let mut k: usize = 0;
    proof {
        assert(log@.take(0) =~= Seq::<(usize, usize)>::empty());
        assert(out@ =~= start + decision_lines(log@.take(0)));
    }
    while k < log.len()
        invariant
            k <= log@.len(),
            out@ == start + decision_lines(log@.take(k as int)),
        decreases log@.len() - k,
    {
        let (index, player) = log[k];
        append_decimal(out, index);
        out.append("P");
        append_decimal(out, player);
        out.append("\n");
        proof {
            reveal_strlit("P");
            reveal_strlit("\n");
            let t = log@.take(k + 1);
            assert(t.drop_last() =~= log@.take(k as int));
            assert(t.last() == (index, player));
            assert(out@ =~= start + decision_lines(t));
        }
        k += 1;
    }
    assert(log@.take(log@.len() as int) =~= log@);
}

/// Appends the key-value pairs, each as `key value`, separated by spaces.
fn append_pairs(out: &mut String, pairs: &Vec<(String, String)>)
    ensures
        final(out)@ == old(out)@ + joined_pairs(pair_views(pairs@)),
{
    proof {
        reveal_strlit(" ");
        assert(" "@ =~= seq![' ']);
    }
    let ghost prefix = out@;
    let ghost all = pair_views(pairs@);
    let mut k: usize = 0;
    proof {
        assert(all.take(0) =~= Seq::<(Seq<char>, Seq<char>)>::empty());
        assert(out@ =~= prefix + joined_pairs(all.take(0)));
    }
    while k < pairs.len()
        invariant
            k <= pairs@.len(),
            all == pair_views(pairs@),
            out@ == prefix + joined_pairs(all.take(k as int)),
        decreases pairs@.len() - k,
    {
        let ghost before = out@;
        proof {
            reveal_strlit(" ");
            assert(" "@ =~= seq![' ']);
        }
        if k > 0 {
            out.append(" ");
        }
        let ghost spaced = out@;
        let key = pairs[k].0.as_str();
        let val = pairs[k].1.as_str();
        out.append(key);
        out.append(" ");
        out.append(val);
        proof {
            let t = all.take(k + 1);
            assert(t.drop_last() =~= all.take(k as int));
            assert(t.last() == (key@, val@));
            assert(out@ =~= spaced + key@ + seq![' '] + val@);
            if k == 0 {
                assert(t[0] == t.last());
                assert(joined_pairs(t) == t[0].0 + seq![' '] + t[0].1);
                assert(spaced == before);
                assert(out@ =~= prefix + joined_pairs(t));
            } else {
                assert(joined_pairs(t) == joined_pairs(t.drop_last()) + seq![' '] + t.last().0 + seq![' '] + t.last().1);
                assert(spaced =~= before + seq![' ']);
                assert(out@ =~= prefix + joined_pairs(t));
            }
        }
        k += 1;
    }
    assert(all.take(pairs@.len() as int) =~= all);
}

/// The text of a saved game: the header, the key-value pairs of the initial
/// state, the number of players and the decisions of the log and the redo
/// stack.  Keys and values hold no space and no newline.
pub fn save_game(
    header: &str,
    initial_state: &Vec<(String, String)>,
    num_players: usize,
    log: &SerializedLog,
) -> (r: String)
    requires
        forall|k: int|
            0 <= k < initial_state@.len() ==> is_plain_word((#[trigger] initial_state@[k]).0@) && is_plain_word(
                initial_state@[k].1@,
            ),
    ensures
        r@ == spec_saved_game(header@, pair_views(initial_state@), num_players, log.log@, log.redo_stack@),
{
    proof {
        reveal_strlit("\n");
        reveal_strlit(" ");
        reveal_strlit("C\n");
    }
    let mut out = String::from_str(header);
    out.append("\n");
    append_pairs(&mut out, initial_state);
    out.append("\n");
    append_decimal(&mut out, num_players);
    out.append("\n");
    append_decisions(&mut out, &log.log);
    out.append("C\n");
    append_decisions(&mut out, &log.redo_stack);
    assert(out@ =~= spec_saved_game(header@, pair_views(initial_state@), num_players, log.log@, log.redo_stack@));
    out
}

// ----- restoring -----

/// The engine `b` comes from `a` by applying pending effects in turn until
/// the engine goes on with what the data asks for next.
pub open spec fn effects_reach<T: GameData>(a: LoggingEngine<T>, b: LoggingEngine<T>) -> bool {
    exists|chain: Seq<LoggingEngine<T>>| #[trigger] LoggingEngine::<T>::effects_chain(chain) && chain[0] == a
        && chain.last() == b
}

/// Replaying the decision `entry` (option and player) on the engine `a`
/// selects the option through `mid` and applies the resulting effects,
/// giving `b`: the engine waits for a decision of that player with that
/// option.
pub open spec fn replay_step<T: GameData>(
    a: LoggingEngine<T>,
    entry: (usize, usize),
    mid: LoggingEngine<T>,
    b: LoggingEngine<T>,
) -> bool {
    &&& a.spec_is_pending_decision()
    &&& entry.1 == a.spec_player()
    &&& a.spec_selection_step(entry.0, mid)
    &&& if mid.spec_is_pending_effect() {
        effects_reach(mid, b)
    } else {
        b == mid
    }
}

/// The engines `engines` come from a new engine for `data` by replaying
/// `entries` in turn, through the engines `mids` right after each selection.
pub open spec fn replay_chain<T: GameData>(
    num_players: usize,
    data: T,
    entries: Seq<(usize, usize)>,
    engines: Seq<LoggingEngine<T>>,
    mids: Seq<LoggingEngine<T>>,
) -> bool {
    &&& engines.len() == entries.len() + 1
    &&& mids.len() == entries.len()
    &&& engines[0].spec_data() == data
    &&& engines[0].spec_follows_data()
    &&& engines[0].spec_num_players() == num_players
    &&& forall|i: int| 0 <= i < entries.len() ==> #[trigger] replay_step(engines[i], entries[i], mids[i], engines[i + 1])
}

/// Replaying the first `n` decisions of `log` on a new engine for `data`
/// ends the game.
pub open spec fn replayed_finished<T: GameData>(num_players: usize, data: T, log: Seq<(usize, usize)>, n: int) -> bool {
    exists|e: LoggingEngine<T>| #[trigger] replayed_to(num_players, data, log, n, e) && e.spec_is_finished()
}

/// Replaying the first `n` decisions of `log` on a new engine for `data`
/// leads to a decision with `count` options.
pub open spec fn replayed_with_options<T: GameData>(
    num_players: usize,
    data: T,
    log: Seq<(usize, usize)>,
    n: int,
    count: int,
) -> bool {
    exists|e: LoggingEngine<T>| #[trigger] replayed_to(num_players, data, log, n, e) && e.spec_is_pending_decision()
        && count == e.spec_option_count()
}

/// Replaying the first `n` decisions of `log` on a new engine for `data`
/// leads to a decision of player `player` that has option `log[n].0`.
pub open spec fn replayed_with_player<T: GameData>(
    num_players: usize,
    data: T,
    log: Seq<(usize, usize)>,
    n: int,
    player: int,
) -> bool {
    exists|e: LoggingEngine<T>| #[trigger] replayed_to(num_players, data, log, n, e) && e.spec_is_pending_decision()
        && log[n].0 < e.spec_option_count() && player == e.spec_player()
}

/// Replaying the first `n` decisions of `log` on a new engine for `data`
/// gives the engine `e`.
pub open spec fn replayed_to<T: GameData>(
    num_players: usize,
    data: T,
    log: Seq<(usize, usize)>,
    n: int,
    e: LoggingEngine<T>,
) -> bool {
    exists|engines: Seq<LoggingEngine<T>>, mids: Seq<LoggingEngine<T>>| #[trigger] replay_chain(
        num_players,
        data,
        log.take(n),
        engines,
        mids,
    ) && engines.last() == e
}

/// Replays the decisions of a log on a new logging engine for the data.
/// Fails at the first decision that the game does not allow: the game is
/// already finished, the index is not an option, or the player is not the
/// one who decides.
pub fn restore_game_state_impl<T: GameData>(num_players: usize, data: T, log: &Vec<(usize, usize)>) -> (r: Result<
    LoggingEngine<T>,
    LoadGameError,
>)
    ensures
        r matches Ok(e) ==> e.wf() && e.spec_num_players() == num_players && !e.spec_is_pending_effect(),
        r matches Ok(e) ==> replayed_to(num_players, data, log@, log@.len() as int, e),
        r matches Err(LoadGameError::GameAlreadyFinished { decision_nr }) ==> decision_nr < log@.len() && replayed_finished(num_players, data, log@, decision_nr as int),
        r matches Err(LoadGameError::InvalidDecisionIndex { decision_nr, index, max_index }) ==> decision_nr < log@.len()
            && index == log@[decision_nr as int].0 && index >= max_index && replayed_with_options(num_players, data, log@, decision_nr as int, max_index as int),
        r matches Err(LoadGameError::UnexpectedPlayer { decision_nr, player, expected_player }) ==> decision_nr
            < log@.len() && player == log@[decision_nr as int].1 && player != expected_player && replayed_with_player(
            num_players,
            data,
            log@,
            decision_nr as int,
            expected_player as int,
        ),
        !(r matches Err(LoadGameError::InvalidFileContent { .. })),
{
    let ghost data0 = data;
    let mut engine: LoggingEngine<T> = Engine::new_logging(num_players, data);
    let mut i: usize = 0;
    let ghost mut engines: Seq<LoggingEngine<T>> = seq![engine];
    let ghost mut mids: Seq<LoggingEngine<T>> = Seq::empty();
    proof {
        assert(log@.take(0) =~= Seq::<(usize, usize)>::empty());
        assert(replay_chain(num_players, data0, log@.take(0), engines, mids));
    }
    while i < log.len()
        invariant
            engine.wf(),
            engine.spec_num_players() == num_players,
            !engine.spec_is_pending_effect(),
            i <= log@.len(),
            replay_chain(num_players, data0, log@.take(i as int), engines, mids),
            engines.last() == engine,
            data0 == data,
        decreases log@.len() - i,
    {
        proof {
            assert(replayed_to(num_players, data0, log@, i as int, engine));
        }
        let (index, player) = log[i];
        let (count, expected) = match engine.get_decision() {
            Some(decision) => (decision.option_count(), decision.player()),
            None => {
                proof {
                    engine.lemma_exclusive_states();
                    assert(engine.spec_is_finished());
                    assert(replayed_to(num_players, data0, log@, i as int, engine));
                    assert(replayed_finished(num_players, data0, log@, i as int));
                }
                return Err(LoadGameError::GameAlreadyFinished { decision_nr: i });
            },
        };
        if index >= count {
            assert(count == engine.spec_option_count());
            assert(engine.spec_is_pending_decision());
            assert(replayed_to(num_players, data0, log@, i as int, engine));
            assert(replayed_with_options(num_players, data0, log@, i as int, count as int));
            return Err(LoadGameError::InvalidDecisionIndex { decision_nr: i, index, max_index: count });
        } else if player != expected {
            assert(replayed_to(num_players, data0, log@, i as int, engine));
            assert(replayed_with_player(num_players, data0, log@, i as int, expected as int));
            return Err(LoadGameError::UnexpectedPlayer { decision_nr: i, player, expected_player: expected });
        }
        let ghost before = engine;
        engine.select_option(index);
        let ghost mid = engine;
        if engine.is_pending_effect() {
            engine.all_effects();
        }
        proof {
            assert(before.spec_is_pending_decision());
            assert(replay_step(before, log@[i as int], mid, engine));
            let old_engines = engines;
            let old_mids = mids;
            engines = engines.push(engine);
            mids = mids.push(mid);
            let entries = log@.take(i + 1);
            assert(entries.drop_last() =~= log@.take(i as int));
            assert forall|k: int| 0 <= k < entries.len() implies #[trigger] replay_step(
                engines[k],
                entries[k],
                mids[k],
                engines[k + 1],
            ) by {
                if k < i {
                    assert(engines[k] == old_engines[k] && engines[k + 1] == old_engines[k + 1] && mids[k] == old_mids[k]);
                    assert(entries[k] == log@.take(i as int)[k]);
                } else {
                    assert(engines[k] == before);
                }
            }
            assert(replay_chain(num_players, data0, entries, engines, mids));
        }
        i += 1;
    }
    proof {
        assert(log@.take(log@.len() as int) =~= log@);
        assert(replayed_to(num_players, data0, log@, log@.len() as int, engine));
    }
    Ok(engine)
}

/// The decisions that restoring replays: the log, then the redo stack from
/// its top.
pub open spec fn replayed(log: SerializedLog) -> Seq<(usize, usize)> {
    log.log@ + log.redo_stack@.reverse()
}

/// Restores a logging engine from the data that `create_data` gives and a
/// serialized log.  A non-empty redo stack is checked by replaying it after
/// the log on fresh data, and becomes the redo stack of the engine.
pub fn restore_game_state<T: GameData, F>(num_players: usize, create_data: F, log: SerializedLog) -> (r: Result<
    LoggingEngine<T>,
    LoadGameError,
>)
    where
        F: Fn() -> Result<T, String>,
    requires
        create_data.requires(()),
    ensures
        r matches Ok(e) ==> e.wf() && e.spec_num_players() == num_players,
        r matches Ok(e) ==> (log.redo_stack@.len() > 0 ==> e.spec_listener().redo_stack@ == log.redo_stack@),
        r matches Err(LoadGameError::InvalidFileContent { line, msg }) ==> line == 0 && create_data.ensures(
            (),
            Err::<T, String>(msg),
        ),
        r matches Err(LoadGameError::GameAlreadyFinished { decision_nr }) ==> decision_nr < replayed(log).len(),
        r matches Err(LoadGameError::InvalidDecisionIndex { decision_nr, index, max_index }) ==> decision_nr
            < replayed(log).len() && index == replayed(log)[decision_nr as int].0 && index >= max_index,
        r matches Err(LoadGameError::UnexpectedPlayer { decision_nr, player, expected_player }) ==> decision_nr
            < replayed(log).len() && player == replayed(log)[decision_nr as int].1 && player != expected_player,
        log.log@.len() == 0 && log.redo_stack@.len() == 0 && (forall|res: Result<T, String>| #[trigger] create_data.ensures(
            (),
            res,
        ) ==> res is Ok) ==> r is Ok,
{
    let data = match create_data() {
        Ok(d) => d,
        Err(msg) => {
            return Err(LoadGameError::from(msg));
        },
    };
    let mut result = match restore_game_state_impl(num_players, data, &log.log) {
        Ok(e) => e,
        Err(e) => {
            return Err(e);
        },
    };
    if log.redo_stack.len() > 0 {
        let fresh = match create_data() {
            Ok(d) => d,
            Err(msg) => {
                return Err(LoadGameError::from(msg));
            },
        };
        let mut full: Vec<(usize, usize)> = Vec::new();
        let mut k: usize = 0;
        while k < log.log.len()
            invariant
                k <= log.log@.len(),
                full@ == log.log@.take(k as int),
            decreases log.log@.len() - k,
        {
            full.push(log.log[k]);
            k += 1;
            assert(full@ =~= log.log@.take(k as int));
        }
        let mut j: usize = log.redo_stack.len();
        assert(log.log@.take(k as int) =~= log.log@);
        assert(log.redo_stack@.subrange(j as int, j as int).reverse() =~= Seq::<(usize, usize)>::empty());
        assert(full@ =~= log.log@ + log.redo_stack@.subrange(j as int, log.redo_stack@.len() as int).reverse());
        while j > 0
            invariant
                j <= log.redo_stack@.len(),
                full@ == log.log@ + log.redo_stack@.subrange(j as int, log.redo_stack@.len() as int).reverse(),
            decreases j,
        {
            j -= 1;
            full.push(log.redo_stack[j]);
            assert(full@ =~= log.log@ + log.redo_stack@.subrange(j as int, log.redo_stack@.len() as int).reverse());
        }
        assert(log.redo_stack@.subrange(0, log.redo_stack@.len() as int) =~= log.redo_stack@);
        assert(full@ == replayed(log));
        match restore_game_state_impl(num_players, fresh, &full) {
            Ok(_) => {},
            Err(e) => {
                return Err(e);
            },
        }
        result.set_redo_stack(log.redo_stack);
    }
    Ok(result)
}

/// Loads a saved game: parses the text, creates the data from the key-value
/// pairs of the initial state and replays the log.
pub fn load_game<T: GameData, F>(text: &str, expected_header: &str, parse_initial_state: F) -> (r: Result<
    LoggingEngine<T>,
    LoadGameError,
>)
    where
        F: Fn(&Vec<(String, String)>) -> Result<T, String>,
    requires
        forall|v: &Vec<(String, String)>| #[trigger] parse_initial_state.requires((v,)),
    ensures
        spec_parse_saved_game(text@, expected_header@) matches Parsed::Failed(line, msg) ==> r matches Err(
            LoadGameError::InvalidFileContent { line: l, msg: m },
        ) && l == line && m@ == msg,
        r matches Ok(e) ==> e.wf() && (spec_parse_saved_game(text@, expected_header@) matches Parsed::Game(
            _,
            num_players,
            _,
            _,
        ) && e.spec_num_players() == num_players),
{
    let (initial_state, num_players, log) = match parse_saved_game(text, expected_header) {
        Ok(parsed) => parsed,
        Err(e) => {
            return Err(e);
        },
    };
    let parse = &parse_initial_state;
    let state = &initial_state;
    let create = || -> (r: Result<T, String>)
        requires
            forall|v: &Vec<(String, String)>| #[trigger] parse.requires((v,)),
        { parse(state) };
    restore_game_state(num_players, create, log)
}

// ----- reading back what was written -----

/// No character of the text is a separator.
pub open spec fn free_of(x: Seq<char>, sep: Separator) -> bool {
    forall|k: int| 0 <= k < x.len() ==> !is_separator(sep, #[trigger] x[k])
}

/// Appending characters that are no separators extends the last piece.
proof fn lemma_pieces_extend(t: Seq<char>, x: Seq<char>, sep: Separator)
    requires
        free_of(x, sep),
    ensures
        pieces(t + x, sep) == pieces(t, sep).update(pieces(t, sep).len() - 1, pieces(t, sep).last() + x),
        pieces(t, sep).len() >= 1,
    decreases x.len(),
{
    lemma_pieces_len(t, sep);
    if x.len() == 0 {
        assert(t + x =~= t);
        assert(pieces(t, sep).last() + x =~= pieces(t, sep).last());
        assert(pieces(t, sep).update(pieces(t, sep).len() - 1, pieces(t, sep).last()) =~= pieces(t, sep));
    } else {
        let y = x.drop_last();
        let c = x.last();
        assert(free_of(y, sep));
        lemma_pieces_extend(t, y, sep);
        assert((t + x).drop_last() =~= t + y);
        assert((t + x).last() == c);
        lemma_pieces_len(t + y, sep);
        let p = pieces(t, sep);
        let q = pieces(t + y, sep);
        assert(q =~= p.update(p.len() - 1, p.last() + y));
        assert(pieces(t + x, sep) == q.update(q.len() - 1, q.last().push(c)));
        assert(p.last() + y + seq![c] =~= p.last() + x);
        assert(q.last().push(c) =~= p.last() + x);
        assert(pieces(t + x, sep) =~= p.update(p.len() - 1, p.last() + x));
    }
}

proof fn lemma_pieces_len(t: Seq<char>, sep: Separator)
    ensures
        pieces(t, sep).len() >= 1,
    decreases t.len(),
{
    if t.len() > 0 {
        lemma_pieces_len(t.drop_last(), sep);
    }
}

/// A separator starts a new, empty piece.
proof fn lemma_pieces_separator(t: Seq<char>, c: char, sep: Separator)
    requires
        is_separator(sep, c),
    ensures
        pieces(t + seq![c], sep) == pieces(t, sep).push(Seq::<char>::empty()),
{
    assert((t + seq![c]).drop_last() =~= t);
    assert((t + seq![c]).last() == c);
}

/// A text without separators is one piece.
proof fn lemma_pieces_single(x: Seq<char>, sep: Separator)
    requires
        free_of(x, sep),
    ensures
        pieces(x, sep) == seq![x],
{
    lemma_pieces_extend(Seq::<char>::empty(), x, sep);
    assert(Seq::<char>::empty() + x =~= x);
    assert(seq![Seq::<char>::empty()].update(0, Seq::<char>::empty() + x) =~= seq![x]);
}

/// Lines, each followed by a newline.
pub open spec fn newline_text(ls: Seq<Seq<char>>) -> Seq<char>
    decreases ls.len(),
{
    if ls.len() == 0 {
        Seq::<char>::empty()
    } else {
        newline_text(ls.drop_last()) + ls.last() + seq!['\n']
    }
}

proof fn lemma_pieces_of_lines(ls: Seq<Seq<char>>)
    requires
        forall|k: int| 0 <= k < ls.len() ==> free_of(#[trigger] ls[k], Separator::Newline),
    ensures
        pieces(newline_text(ls), Separator::Newline) == ls.push(Seq::<char>::empty()),
    decreases ls.len(),
{
    if ls.len() == 0 {
        assert(ls.push(Seq::<char>::empty()) =~= seq![Seq::<char>::empty()]);
    } else {
        let init = ls.drop_last();
        let l = ls.last();
        assert forall|k: int| 0 <= k < init.len() implies free_of(#[trigger] init[k], Separator::Newline) by {
            assert(init[k] == ls[k]);
        }
        lemma_pieces_of_lines(init);
        let t = newline_text(init);
        assert(free_of(l, Separator::Newline)) by {
            assert(l == ls[ls.len() - 1]);
        }
        lemma_pieces_extend(t, l, Separator::Newline);
        let p = init.push(Seq::<char>::empty());
        assert(Seq::<char>::empty() + l =~= l);
        assert(p.update(p.len() - 1, p.last() + l) =~= ls);
        lemma_pieces_separator(t + l, '\n', Separator::Newline);
    }
}

/// The lines of lines that are each followed by a newline.
proof fn lemma_lines_of(ls: Seq<Seq<char>>)
    requires
        forall|k: int| 0 <= k < ls.len() ==> free_of(#[trigger] ls[k], Separator::Newline),
    ensures
        spec_lines(newline_text(ls)) == ls,
{
    lemma_pieces_of_lines(ls);
    assert(ls.push(Seq::<char>::empty()).drop_last() =~= ls);
}

proof fn lemma_newline_text_add(a: Seq<Seq<char>>, b: Seq<Seq<char>>)
    ensures
        newline_text(a + b) == newline_text(a) + newline_text(b),
    decreases b.len(),
{
    if b.len() == 0 {
        assert(a + b =~= a);
        assert(newline_text(a) + newline_text(b) =~= newline_text(a));
    } else {
        lemma_newline_text_add(a, b.drop_last());
        assert((a + b).drop_last() =~= a + b.drop_last());
        assert((a + b).last() == b.last());
        assert(newline_text(a + b) =~= newline_text(a) + newline_text(b));
    }
}

proof fn lemma_digit(d: nat)
    requires
        d < 10,
    ensures
        is_digit(digit_char(d)),
        (digit_char(d) as nat) - ('0' as nat) == d,
        digit_char(d) != '+',
        !is_separator(Separator::Newline, digit_char(d)),
        !is_separator(Separator::Whitespace, digit_char(d)),
        !is_separator(Separator::Player, digit_char(d)),
{
}

/// The decimal representation consists of digits and has the value.
proof fn lemma_decimal(n: nat)
    ensures
        decimal(n).len() >= 1,
        forall|k: int| 0 <= k < decimal(n).len() ==> is_digit(#[trigger] decimal(n)[k]),
        decimal_value(decimal(n)) == n,
        free_of(decimal(n), Separator::Newline),
        free_of(decimal(n), Separator::Whitespace),
        free_of(decimal(n), Separator::Player),
    decreases n,
{
    if n < 10 {
        lemma_digit(n);
        assert(decimal(n).drop_last() =~= Seq::<char>::empty());
        assert(decimal_value(Seq::<char>::empty()) == 0);
        assert(decimal_value(decimal(n)) == decimal_value(Seq::<char>::empty()) * 10 + ((digit_char(n) as nat)
            - ('0' as nat)));
    } else {
        lemma_decimal(n / 10);
        lemma_digit(n % 10);
        let s = decimal(n / 10);
        assert(decimal(n) == s.push(digit_char(n % 10)));
        assert(decimal(n).drop_last() =~= s);
        assert(decimal_value(decimal(n)) == decimal_value(s) * 10 + (n % 10));
        assert(n == (n / 10) * 10 + n % 10) by (nonlinear_arith);
    }
}

/// A number reads back as itself.
proof fn lemma_parse_decimal(n: usize)
    ensures
        spec_parse_usize(decimal(n as nat)) == Some(n),
{
    lemma_decimal(n as nat);
    let d = decimal(n as nat);
    lemma_digit_not_plus(d);
}

proof fn lemma_digit_not_plus(d: Seq<char>)
    requires
        d.len() >= 1,
        forall|k: int| 0 <= k < d.len() ==> is_digit(#[trigger] d[k]),
    ensures
        d[0] != '+',
{
    assert(is_digit(d[0]));
}

/// Keys and values in order: key, value, key, value, ...
pub open spec fn flat_pairs(p: Seq<(Seq<char>, Seq<char>)>) -> Seq<Seq<char>> {
    Seq::new(
        2 * p.len(),
        |k: int|
            if k % 2 == 0 {
                p[k / 2].0
            } else {
                p[k / 2].1
            },
    )
}

/// A word: not empty and without ASCII whitespace.
pub open spec fn is_word(w: Seq<char>) -> bool {
    w.len() > 0 && free_of(w, Separator::Whitespace)
}

proof fn lemma_pieces_of_pairs(p: Seq<(Seq<char>, Seq<char>)>)
    requires
        p.len() >= 1,
        forall|k: int| 0 <= k < p.len() ==> is_word((#[trigger] p[k]).0) && is_word(p[k].1),
    ensures
        pieces(joined_pairs(p), Separator::Whitespace) == flat_pairs(p),
    decreases p.len(),
{
    let ws = Separator::Whitespace;
    let e = Seq::<char>::empty();
    let last = p.last();
    assert(is_word(last.0) && is_word(last.1)) by {
        assert(last == p[p.len() - 1]);
    }
    if p.len() == 1 {
        lemma_pieces_single(last.0, ws);
        lemma_pieces_separator(last.0, ' ', ws);
        lemma_pieces_extend(last.0 + seq![' '], last.1, ws);
        assert(seq![last.0].push(e).update(1, e + last.1) =~= flat_pairs(p));
        assert(p[0] == last);
    } else {
        let init = p.drop_last();
        assert forall|k: int| 0 <= k < init.len() implies is_word((#[trigger] init[k]).0) && is_word(init[k].1) by {
            assert(init[k] == p[k]);
        }
        lemma_pieces_of_pairs(init);
        let j = joined_pairs(init);
        let f = flat_pairs(init);
        lemma_pieces_separator(j, ' ', ws);
        lemma_pieces_extend(j + seq![' '], last.0, ws);
        let f1 = f.push(e).update(f.len() as int, e + last.0);
        assert(f1 =~= f.push(last.0));
        lemma_pieces_separator(j + seq![' '] + last.0, ' ', ws);
        lemma_pieces_extend(j + seq![' '] + last.0 + seq![' '], last.1, ws);
        let f2 = f.push(last.0).push(e).update(f.len() + 1int, e + last.1);
        assert(f2 =~= flat_pairs(p));
    }
}

proof fn lemma_filter_words(s: Seq<Seq<char>>)
    requires
        forall|k: int| 0 <= k < s.len() ==> (#[trigger] s[k]).len() > 0,
    ensures
        s.filter(word_filter()) == s,
    decreases s.len(),
{
    reveal(Seq::filter);
    if s.len() > 0 {
        let init = s.drop_last();
        assert forall|k: int| 0 <= k < init.len() implies (#[trigger] init[k]).len() > 0 by {
            assert(init[k] == s[k]);
        }
        lemma_filter_words(init);
        assert(s.last().len() > 0) by {
            assert(s.last() == s[s.len() - 1]);
        }
        assert(init.push(s.last()) =~= s);
    }
}

/// The words of the line of key-value pairs are the keys and values.
proof fn lemma_words_of_pairs(p: Seq<(Seq<char>, Seq<char>)>)
    requires
        forall|k: int| 0 <= k < p.len() ==> is_word((#[trigger] p[k]).0) && is_word(p[k].1),
    ensures
        spec_words(joined_pairs(p)) == flat_pairs(p),
        pairs_of(flat_pairs(p)) == p,
{
    if p.len() == 0 {
        reveal(Seq::filter);
        let one = seq![Seq::<char>::empty()];
        assert(one.drop_last() =~= Seq::<Seq<char>>::empty());
        assert(joined_pairs(p) == Seq::<char>::empty());
        assert(pieces(Seq::<char>::empty(), Separator::Whitespace) == one);
        assert(Seq::<Seq<char>>::empty().filter(word_filter()) == Seq::<Seq<char>>::empty());
        assert(one.filter(word_filter()) == one.drop_last().filter(word_filter()));
        assert(spec_words(joined_pairs(p)) =~= flat_pairs(p));
    } else {
        lemma_pieces_of_pairs(p);
        let f = flat_pairs(p);
        assert forall|k: int| 0 <= k < f.len() implies (#[trigger] f[k]).len() > 0 by {
            assert(is_word(p[k / 2].0) && is_word(p[k / 2].1));
        }
        lemma_filter_words(f);
    }
    let f = flat_pairs(p);
    assert forall|k: int| 0 <= k < p.len() implies #[trigger] pairs_of(f)[k] == p[k] by {
        assert((2 * k) % 2 == 0 && (2 * k) / 2 == k);
        assert((2 * k + 1) % 2 == 1 && (2 * k + 1) / 2 == k);
    }
    assert(pairs_of(f) =~= p);
}

/// The line of a decision: its option index, the separator and its player.
pub open spec fn decision_line(d: (usize, usize)) -> Seq<char> {
    decimal(d.0 as nat) + seq![PLAYER_SEPARATOR] + decimal(d.1 as nat)
}

/// The lines of the decisions.
pub open spec fn decision_line_seq(log: Seq<(usize, usize)>) -> Seq<Seq<char>> {
    Seq::new(log.len(), |k: int| decision_line(log[k]))
}

proof fn lemma_decision_line(d: (usize, usize))
    ensures
        free_of(decision_line(d), Separator::Newline),
        decision_line(d) != seq![CURRENT_STATE],
        pieces(decision_line(d), Separator::Player) == seq![decimal(d.0 as nat), decimal(d.1 as nat)],
        spec_parse_usize(decimal(d.0 as nat)) == Some(d.0),
        spec_parse_usize(decimal(d.1 as nat)) == Some(d.1),
{
    let a = decimal(d.0 as nat);
    let b = decimal(d.1 as nat);
    lemma_decimal(d.0 as nat);
    lemma_decimal(d.1 as nat);
    lemma_parse_decimal(d.0);
    lemma_parse_decimal(d.1);
    let l = decision_line(d);
    assert forall|k: int| 0 <= k < l.len() implies !is_separator(Separator::Newline, #[trigger] l[k]) by {
        if k < a.len() {
            assert(l[k] == a[k]);
        } else if k > a.len() {
            assert(l[k] == b[k - a.len() - 1]);
        }
    }
    assert(l.len() >= 3);
    lemma_pieces_single(a, Separator::Player);
    lemma_pieces_separator(a, PLAYER_SEPARATOR, Separator::Player);
    lemma_pieces_extend(a + seq![PLAYER_SEPARATOR], b, Separator::Player);
    assert(seq![a].push(Seq::<char>::empty()).update(1, Seq::<char>::empty() + b) =~= seq![a, b]);
}

proof fn lemma_decision_lines(log: Seq<(usize, usize)>)
    ensures
        decision_lines(log) == newline_text(decision_line_seq(log)),
    decreases log.len(),
{
    if log.len() > 0 {
        let init = log.drop_last();
        lemma_decision_lines(init);
        assert(decision_line_seq(log).drop_last() =~= decision_line_seq(init));
        assert(decision_line_seq(log).last() == decision_line(log.last()));
        assert(decision_lines(log) =~= newline_text(decision_line_seq(log)));
    } else {
        assert(decision_line_seq(log) =~= Seq::<Seq<char>>::empty());
    }
}

/// A block of decision lines adds its decisions to the log, or to the redo
/// stack after the line `C`.
proof fn lemma_scan_block(
    lines: Seq<Seq<char>>,
    start: int,
    s: Seq<(usize, usize)>,
    found: bool,
    lg: Seq<(usize, usize)>,
    rd: Seq<(usize, usize)>,
)
    requires
        0 <= start,
        start + s.len() <= lines.len(),
        forall|j: int| 0 <= j < s.len() ==> lines[start + j] == decision_line(#[trigger] s[j]),
    ensures
        spec_scan(lines, start, found, lg, rd) == spec_scan(
            lines,
            start + s.len(),
            found,
            if found {
                lg
            } else {
                lg + s
            },
            if found {
                rd + s
            } else {
                rd
            },
        ),
    decreases s.len(),
{
    if s.len() == 0 {
        assert(lg + s =~= lg);
        assert(rd + s =~= rd);
    } else {
        let d = s[0];
        lemma_decision_line(d);
        assert(lines[start] == decision_line(d)) by {
            assert(lines[start + 0] == decision_line(s[0]));
        }
        let rest = s.drop_first();
        assert forall|j: int| 0 <= j < rest.len() implies lines[(start + 1) + j] == decision_line(#[trigger] rest[j]) by {
            assert(rest[j] == s[j + 1]);
            assert(lines[start + (j + 1)] == decision_line(s[j + 1]));
        }
        let lg2 = if found {
            lg
        } else {
            lg.push(d)
        };
        let rd2 = if found {
            rd.push(d)
        } else {
            rd
        };
        assert(spec_scan(lines, start, found, lg, rd) == spec_scan(lines, start + 1, found, lg2, rd2));
        lemma_scan_block(lines, start + 1, rest, found, lg2, rd2);
        assert(lg.push(d) + rest =~= lg + s);
        assert(rd.push(d) + rest =~= rd + s);
    }
}

proof fn lemma_joined_free(p: Seq<(Seq<char>, Seq<char>)>)
    requires
        forall|k: int| 0 <= k < p.len() ==> is_word((#[trigger] p[k]).0) && is_word(p[k].1),
    ensures
        free_of(joined_pairs(p), Separator::Newline),
    decreases p.len(),
{
    if p.len() > 0 {
        let last = p.last();
        assert(is_word(last.0) && is_word(last.1)) by {
            assert(last == p[p.len() - 1]);
        }
        let j = joined_pairs(p);
        if p.len() == 1 {
            assert(p[0] == last);
            assert forall|k: int| 0 <= k < j.len() implies !is_separator(Separator::Newline, #[trigger] j[k]) by {
                if k < last.0.len() {
                    assert(j[k] == last.0[k]);
                    assert(!is_separator(Separator::Whitespace, last.0[k]));
                } else if k > last.0.len() {
                    assert(j[k] == last.1[k - last.0.len() - 1]);
                    assert(!is_separator(Separator::Whitespace, last.1[k - last.0.len() - 1]));
                }
            }
        } else {
            let init = p.drop_last();
            assert forall|k: int| 0 <= k < init.len() implies is_word((#[trigger] init[k]).0) && is_word(init[k].1) by {
                assert(init[k] == p[k]);
            }
            lemma_joined_free(init);
            let ji = joined_pairs(init);
            assert forall|k: int| 0 <= k < j.len() implies !is_separator(Separator::Newline, #[trigger] j[k]) by {
                let n0 = ji.len();
                let n1 = n0 + 1 + last.0.len();
                if k < n0 {
                    assert(j[k] == ji[k]);
                } else if n0 < k < n1 {
                    assert(j[k] == last.0[k - n0 - 1]);
                    assert(!is_separator(Separator::Whitespace, last.0[k - n0 - 1]));
                } else if k > n1 {
                    assert(j[k] == last.1[k - n1 - 1]);
                    assert(!is_separator(Separator::Whitespace, last.1[k - n1 - 1]));
                }
            }
        }
    }
}

/// Reading a saved game gives back what was saved: the initial state, the
/// number of players, the log and the redo stack, provided the header holds
/// no newline and every key and value is a word.
#[verifier::spinoff_prover]
pub proof fn lemma_saved_game_reads_back(
    header: Seq<char>,
    pairs: Seq<(Seq<char>, Seq<char>)>,
    num_players: usize,
    log: Seq<(usize, usize)>,
    redo: Seq<(usize, usize)>,
)
    requires
        free_of(header, Separator::Newline),
        forall|k: int| 0 <= k < pairs.len() ==> is_word((#[trigger] pairs[k]).0) && is_word(pairs[k].1),
    ensures
        spec_parse_saved_game(spec_saved_game(header, pairs, num_players, log, redo), header) == Parsed::Game(
            pairs,
            num_players,
            log,
            redo,
        ),
{
    let j = joined_pairs(pairs);
    let n = decimal(num_players as nat);
    let c = seq![CURRENT_STATE];
    let head = seq![header, j, n];
    let ls = head + decision_line_seq(log) + seq![c] + decision_line_seq(redo);
    // the text is the lines, each followed by a newline
    lemma_decision_lines(log);
    lemma_decision_lines(redo);
    lemma_newline_text_add(head, decision_line_seq(log));
    lemma_newline_text_add(head + decision_line_seq(log), seq![c]);
    lemma_newline_text_add(head + decision_line_seq(log) + seq![c], decision_line_seq(redo));
    let e = Seq::<Seq<char>>::empty();
    let h1 = seq![header];
    let h2 = seq![header, j];
    assert(newline_text(e) == Seq::<char>::empty());
    assert(h1.drop_last() =~= e);
    assert(newline_text(h1) == newline_text(h1.drop_last()) + h1.last() + seq!['\n']);
    assert(newline_text(h1) =~= header + seq!['\n']);
    assert(h2.drop_last() =~= h1);
    assert(newline_text(h2) == newline_text(h2.drop_last()) + h2.last() + seq!['\n']);
    assert(newline_text(h2) =~= header + seq!['\n'] + j + seq!['\n']);
    assert(head.drop_last() =~= h2);
    assert(newline_text(head) == newline_text(head.drop_last()) + head.last() + seq!['\n']);
    assert(newline_text(head) =~= header + seq!['\n'] + j + seq!['\n'] + n + seq!['\n']);
    let c1 = seq![c];
    assert(c1.drop_last() =~= e);
    assert(newline_text(c1) == newline_text(c1.drop_last()) + c1.last() + seq!['\n']);
    assert(newline_text(c1) =~= seq![CURRENT_STATE, '\n']);
    assert(spec_saved_game(header, pairs, num_players, log, redo) =~= newline_text(ls));
    // the lines
    lemma_joined_free(pairs);
    lemma_decimal(num_players as nat);
    assert forall|k: int| 0 <= k < ls.len() implies free_of(#[trigger] ls[k], Separator::Newline) by {
        let a = head.len() + log.len();
        if k == 0 {
            assert(ls[k] == header);
        } else if k == 1 {
            assert(ls[k] == j);
        } else if k == 2 {
            assert(ls[k] == n);
        } else if k < a {
            assert(ls[k] == decision_line(log[k - 3]));
            lemma_decision_line(log[k - 3]);
        } else if k == a {
            assert(ls[k] == c);
        } else {
            assert(ls[k] == decision_line(redo[k - a - 1]));
            lemma_decision_line(redo[k - a - 1]);
        }
    }
    lemma_lines_of(ls);
    let lines = spec_lines(newline_text(ls));
    assert(lines == ls);
    assert(line_at(lines, 0) == header);
    assert(line_at(lines, 1) == j);
    assert(line_at(lines, 2) == n);
    // the initial state and the number of players
    lemma_words_of_pairs(pairs);
    assert(flat_pairs(pairs).len() % 2 == 0) by {
        assert(flat_pairs(pairs).len() == 2 * pairs.len());
    }
    lemma_parse_decimal(num_players);
    // the decisions
    let a: int = 3 + log.len() as int;
    assert forall|i: int| 0 <= i < log.len() implies lines[3 + i] == decision_line(#[trigger] log[i]) by {
        assert(ls[3 + i] == decision_line_seq(log)[i]);
    }
    lemma_scan_block(lines, 3, log, false, Seq::empty(), Seq::empty());
    assert(Seq::<(usize, usize)>::empty() + log =~= log);
    assert(lines[a] == c);
    assert(spec_scan(lines, a, false, log, Seq::empty()) == spec_scan(lines, a + 1, true, log, Seq::empty()));
    assert forall|i: int| 0 <= i < redo.len() implies lines[(a + 1) + i] == decision_line(#[trigger] redo[i]) by {
        assert(ls[a + 1 + i] == decision_line_seq(redo)[i]);
    }
    lemma_scan_block(lines, a + 1, redo, true, log, Seq::empty());
    assert(Seq::<(usize, usize)>::empty() + redo =~= redo);
    assert(a + 1 + redo.len() == lines.len());
}

} // verus!

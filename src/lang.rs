//! The textual surface of the language.
//!
//! A program is a series of sentences, each ended by a period. A sentence is
//! an instruction: either `<verb> <direction>`, or `do <instruction> <count>
//! times`, where the count is written in decimal digits. Words are separated
//! by whitespace, a period also ends a word, and words are recognised
//! regardless of ASCII case. Text is read as bytes.
use vstd::prelude::*;
use vstd::string::StringSliceAdditionalSpecFns;

use crate::ast::{Action, Direction, Instruction};

verus! {

/// The byte of the period that ends a sentence.
pub const PERIOD: u8 = 46;

/// Space, tab, line feed and carriage return.
pub open spec fn is_space(b: u8) -> bool {
    b == 32 || b == 9 || b == 10 || b == 13
}

/// The ASCII lower-case form of a byte; other bytes stay as they are.
pub open spec fn ascii_lower(b: u8) -> u8 {
    if 65 <= b <= 90 {
        (b + 32) as u8
    } else {
        b
    }
}

/// `w` spells the lower-case keyword `kw`, in any ASCII case.
pub open spec fn is_word(w: Seq<u8>, kw: Seq<u8>) -> bool {
    &&& w.len() == kw.len()
    &&& forall|k: int| 0 <= k < w.len() ==> ascii_lower(#[trigger] w[k]) == kw[k]
}

pub open spec fn kw_do() -> Seq<u8> {
    seq![100, 111]
}

pub open spec fn kw_times() -> Seq<u8> {
    seq![116, 105, 109, 101, 115]
}

pub open spec fn kw_jump() -> Seq<u8> {
    seq![106, 117, 109, 112]
}

pub open spec fn kw_walk() -> Seq<u8> {
    seq![119, 97, 108, 107]
}

pub open spec fn kw_punch() -> Seq<u8> {
    seq![112, 117, 110, 99, 104]
}

pub open spec fn kw_left() -> Seq<u8> {
    seq![108, 101, 102, 116]
}

pub open spec fn kw_right() -> Seq<u8> {
    seq![114, 105, 103, 104, 116]
}

/// The first position at or after `i` that does not hold whitespace.
pub open spec fn skip_spaces(s: Seq<u8>, i: int) -> int
    decreases s.len() - i,
{
    if 0 <= i < s.len() && is_space(s[i]) {
        skip_spaces(s, i + 1)
    } else {
        i
    }
}

/// The first position at or after `i` that holds whitespace or a period, or
/// the end of the text.
pub open spec fn word_end(s: Seq<u8>, i: int) -> int
    decreases s.len() - i,
{
    if 0 <= i < s.len() && !is_space(s[i]) && s[i] != PERIOD {
        word_end(s, i + 1)
    } else {
        i
    }
}

/// The direction a word names.
pub open spec fn direction_of(w: Seq<u8>) -> Option<Direction> {
    if is_word(w, kw_left()) {
        Some(Direction::Left)
    } else if is_word(w, kw_right()) {
        Some(Direction::Right)
    } else {
        None
    }
}

/// The action that a verb and a direction word name together.
pub open spec fn action_of(verb: Seq<u8>, dir: Seq<u8>) -> Option<Action> {
    match direction_of(dir) {
        None => None,
        Some(d) => if is_word(verb, kw_jump()) {
            Some(Action::Jump(d))
        } else if is_word(verb, kw_walk()) {
            Some(Action::Walk(d))
        } else if is_word(verb, kw_punch()) {
            Some(Action::Punch(d))
        } else {
            None
        },
    }
}

/// Every byte of `w` is a decimal digit, and there is at least one.
pub open spec fn all_digits(w: Seq<u8>) -> bool {
    &&& w.len() > 0
    &&& forall|k: int| 0 <= k < w.len() ==> 48 <= #[trigger] w[k] <= 57
}

/// The number that the decimal digits `w` spell.
pub open spec fn digits_value(w: Seq<u8>) -> nat
    decreases w.len(),
{
    if w.len() == 0 {
        0
    } else {
        digits_value(w.drop_last()) * 10 + (w.last() - 48) as nat
    }
}

/// Skipping whitespace stays within the text and stops on a non-space byte.
pub proof fn lemma_skip_spaces(s: Seq<u8>, i: int)
    requires
        0 <= i <= s.len(),
    ensures
        i <= skip_spaces(s, i) <= s.len(),
        skip_spaces(s, i) < s.len() ==> !is_space(s[skip_spaces(s, i)]),
    decreases s.len() - i,
{
    if i < s.len() && is_space(s[i]) {
        lemma_skip_spaces(s, i + 1);
    }
}

/// A word ends within the text, at or after its start.
pub proof fn lemma_word_end(s: Seq<u8>, i: int)
    requires
        0 <= i <= s.len(),
    ensures
        i <= word_end(s, i) <= s.len(),
    decreases s.len() - i,
{
    if i < s.len() && !is_space(s[i]) && s[i] != PERIOD {
        lemma_word_end(s, i + 1);
    }
}

/// Reads one instruction from position `i`: the instruction and the position
/// just after its last word, or `None` where no instruction starts there.
pub open spec fn parse_instr(s: Seq<u8>, i: int) -> Option<(Instruction, int)>
    decreases s.len() - i,
{
    if !(0 <= i <= s.len()) {
        None
    } else {
        let a = skip_spaces(s, i);
        let e = word_end(s, a);
        if is_word(s.subrange(a, e), kw_do()) {
            proof {
                lemma_skip_spaces(s, i);
                lemma_word_end(s, a);
            }
            match parse_instr(s, e) {
                None => None,
                Some((inner, j)) => {
                    let a2 = skip_spaces(s, j);
                    let e2 = word_end(s, a2);
                    let num = s.subrange(a2, e2);
                    let a3 = skip_spaces(s, e2);
                    let e3 = word_end(s, a3);
                    if all_digits(num) && digits_value(num) <= usize::MAX && is_word(
                        s.subrange(a3, e3),
                        kw_times(),
                    ) {
                        Some((Instruction::Repetition(Box::new(inner), digits_value(num) as usize), e3))
                    } else {
                        None
                    }
                },
            }
        } else {
            let a2 = skip_spaces(s, e);
            let e2 = word_end(s, a2);
            match action_of(s.subrange(a, e), s.subrange(a2, e2)) {
                None => None,
                Some(act) => Some((Instruction::Action(act), e2)),
            }
        }
    }
}

/// An instruction that is read consumes at least one byte.
pub proof fn lemma_parse_instr_end(s: Seq<u8>, i: int)
    requires
        0 <= i <= s.len(),
    ensures
        parse_instr(s, i) matches Some((_, j)) ==> i < j <= s.len(),
    decreases s.len() - i,
{
    let a = skip_spaces(s, i);
    lemma_skip_spaces(s, i);
    let e = word_end(s, a);
    lemma_word_end(s, a);
    if is_word(s.subrange(a, e), kw_do()) {
        lemma_parse_instr_end(s, e);
        if let Some((_, j)) = parse_instr(s, e) {
            let a2 = skip_spaces(s, j);
            lemma_skip_spaces(s, j);
            let e2 = word_end(s, a2);
            lemma_word_end(s, a2);
            lemma_skip_spaces(s, e2);
            lemma_word_end(s, skip_spaces(s, e2));
        }
    } else {
        let a2 = skip_spaces(s, e);
        lemma_skip_spaces(s, e);
        lemma_word_end(s, a2);
        if action_of(s.subrange(a, e), s.subrange(a2, word_end(s, a2))) is Some {
            assert(e > a);
        }
    }
}

/// Reads the sentences from position `i` to the end of the text: their
/// instructions in order, or `None` where the text does not follow the
/// grammar.
pub open spec fn parse_program(s: Seq<u8>, i: int) -> Option<Seq<Instruction>>
    decreases s.len() - i,
{
    if !(0 <= i <= s.len()) {
        None
    } else {
        let a = skip_spaces(s, i);
        if a >= s.len() {
            Some(Seq::empty())
        } else {
            match parse_instr(s, a) {
                None => None,
                Some((ins, j)) => {
                    let p = skip_spaces(s, j);
                    if 0 <= p < s.len() && s[p] == PERIOD {
                        proof {
                            lemma_skip_spaces(s, i);
                            lemma_parse_instr_end(s, a);
                            lemma_skip_spaces(s, j);
                        }
                        match parse_program(s, p + 1) {
                            None => None,
                            Some(rest) => Some(seq![ins] + rest),
                        }
                    } else {
                        None
                    }
                },
            }
        }
    }
}

fn is_space_byte(b: u8) -> (r: bool)
    ensures
        r == is_space(b),
{
    b == 32 || b == 9 || b == 10 || b == 13
}

fn lower_byte(b: u8) -> (r: u8)
    ensures
        r == ascii_lower(b),
{
    if 65 <= b && b <= 90 {
        b + 32
    } else {
        b
    }
}

fn skip_spaces_at(s: &[u8], i: usize) -> (r: usize)
    requires
        i <= s@.len(),
    ensures
        r == skip_spaces(s@, i as int),
{
    let mut j: usize = i;
    while j < s.len() && is_space_byte(s[j])
        invariant
            i <= j <= s@.len(),
            skip_spaces(s@, j as int) == skip_spaces(s@, i as int),
        decreases s@.len() - j,
    {
        j = j + 1;
    }
    j
}

fn word_end_at(s: &[u8], i: usize) -> (r: usize)
    requires
        i <= s@.len(),
    ensures
        r == word_end(s@, i as int),
{
    let mut j: usize = i;
    while j < s.len() && !is_space_byte(s[j]) && s[j] != PERIOD
        invariant
            i <= j <= s@.len(),
            word_end(s@, j as int) == word_end(s@, i as int),
        decreases s@.len() - j,
    {
        j = j + 1;
    }
    j
}

/// Whether the bytes from `a` to `e` spell the lower-case keyword `kw`, in
/// any ASCII case.
fn word_is(s: &[u8], a: usize, e: usize, kw: &[u8]) -> (r: bool)
    requires
        a <= e <= s@.len(),
    ensures
        r == is_word(s@.subrange(a as int, e as int), kw@),
{
    let ghost w = s@.subrange(a as int, e as int);
    if e - a != kw.len() {
        return false;
    }
    let mut k: usize = 0;
    while k < kw.len()
        invariant
            a <= e <= s@.len(),
            e - a == kw@.len(),
            k <= kw@.len(),
            w == s@.subrange(a as int, e as int),
            forall|t: int| 0 <= t < k ==> ascii_lower(#[trigger] w[t]) == kw@[t],
        decreases kw@.len() - k,
    {
        assert(w[k as int] == s@[a + k]);
        if lower_byte(s[a + k]) != kw[k] {
            return false;
        }
        k = k + 1;
    }
    true
}

/// Digit prefixes of a run of digits spell no more than the whole run.
proof fn lemma_digits_prefix(w: Seq<u8>, m: int)
    requires
        forall|k: int| 0 <= k < w.len() ==> 48 <= #[trigger] w[k] <= 57,
        0 <= m <= w.len(),
    ensures
        digits_value(w.subrange(0, m)) <= digits_value(w),
    decreases w.len(),
{
    if m == w.len() {
        assert(w.subrange(0, m) =~= w);
    } else {
        let d = w.drop_last();
        assert(d.subrange(0, m) =~= w.subrange(0, m));
        lemma_digits_prefix(d, m);
    }
}

/// The count that the bytes from `a` to `e` spell, where they are decimal
/// digits and the count fits in a `usize`.
fn number_at(s: &[u8], a: usize, e: usize) -> (r: Option<usize>)
    requires
        a <= e <= s@.len(),
    ensures
        ({
            let w = s@.subrange(a as int, e as int);
            match r {
                Some(n) => all_digits(w) && digits_value(w) <= usize::MAX && n == digits_value(w),
                None => !(all_digits(w) && digits_value(w) <= usize::MAX),
            }
        }),
{
    let ghost w = s@.subrange(a as int, e as int);
    if a == e {
        return None;
    }
    let mut acc: usize = 0;
    let mut k: usize = a;
    while k < e
        invariant
            a <= k <= e <= s@.len(),
            w == s@.subrange(a as int, e as int),
            forall|t: int| a <= t < k ==> 48 <= #[trigger] s@[t] <= 57,
            acc == digits_value(s@.subrange(a as int, k as int)),
        decreases e - k,
    {
        let b = s[k];
        if b < 48 || b > 57 {
            assert(w[k - a] == b);
            return None;
        }
        let ghost next = s@.subrange(a as int, k + 1);
        assert(next.drop_last() =~= s@.subrange(a as int, k as int));
        let digit: usize = (b - 48) as usize;
        match acc.checked_mul(10) {
            None => {
                proof {
                    if all_digits(w) {
                        assert(w.subrange(0, k + 1 - a) =~= next);
                        lemma_digits_prefix(w, k + 1 - a);
                    }
                }
                return None;
            },
            Some(tens) => match tens.checked_add(digit) {
                None => {
                    proof {
                        if all_digits(w) {
                            assert(w.subrange(0, k + 1 - a) =~= next);
                            lemma_digits_prefix(w, k + 1 - a);
                        }
                    }
                    return None;
                },
                Some(v) => {
                    acc = v;
                },
            },
        }
        k = k + 1;
    }
    assert(s@.subrange(a as int, e as int) =~= w);
    assert forall|t: int| 0 <= t < w.len() implies 48 <= #[trigger] w[t] <= 57 by {
        assert(w[t] == s@[a + t]);
    }
    Some(acc)
}

fn direction_at(s: &[u8], a: usize, e: usize) -> (r: Option<Direction>)
    requires
        a <= e <= s@.len(),
    ensures
        r == direction_of(s@.subrange(a as int, e as int)),
{
    let left: [u8; 4] = [108, 101, 102, 116];
    let right: [u8; 5] = [114, 105, 103, 104, 116];
    if word_is(s, a, e, left.as_slice()) {
        Some(Direction::Left)
    } else if word_is(s, a, e, right.as_slice()) {
        Some(Direction::Right)
    } else {
        None
    }
}

fn action_at(s: &[u8], a: usize, e: usize, a2: usize, e2: usize) -> (r: Option<Action>)
    requires
        a <= e <= s@.len(),
        a2 <= e2 <= s@.len(),
    ensures
        r == action_of(s@.subrange(a as int, e as int), s@.subrange(a2 as int, e2 as int)),
{
    let jump: [u8; 4] = [106, 117, 109, 112];
    let walk: [u8; 4] = [119, 97, 108, 107];
    let punch: [u8; 5] = [112, 117, 110, 99, 104];
    match direction_at(s, a2, e2) {
        None => None,
        Some(d) => if word_is(s, a, e, jump.as_slice()) {
            Some(Action::Jump(d))
        } else if word_is(s, a, e, walk.as_slice()) {
            Some(Action::Walk(d))
        } else if word_is(s, a, e, punch.as_slice()) {
            Some(Action::Punch(d))
        } else {
            None
        },
    }
}

/// Reads one instruction from position `i`, as `parse_instr` describes.
fn parse_instr_at(s: &[u8], i: usize) -> (r: Option<(Instruction, usize)>)
    requires
        i <= s@.len(),
    ensures
        r is Some <==> parse_instr(s@, i as int) is Some,
        r matches Some((ins, j)) ==> parse_instr(s@, i as int) == Some((ins, j as int)),
    decreases s@.len() - i,
{
    let a = skip_spaces_at(s, i);
    proof {
        lemma_skip_spaces(s@, i as int);
    }
    let e = word_end_at(s, a);
    proof {
        lemma_word_end(s@, a as int);
    }
    let do_word: [u8; 2] = [100, 111];
    if word_is(s, a, e, do_word.as_slice()) {
        match parse_instr_at(s, e) {
            None => None,
            Some((inner, j)) => {
                proof {
                    lemma_parse_instr_end(s@, e as int);
                }
                let a2 = skip_spaces_at(s, j);
                proof {
                    lemma_skip_spaces(s@, j as int);
                }
                let e2 = word_end_at(s, a2);
                proof {
                    lemma_word_end(s@, a2 as int);
                }
                let a3 = skip_spaces_at(s, e2);
                proof {
                    lemma_skip_spaces(s@, e2 as int);
                }
                let e3 = word_end_at(s, a3);
                proof {
                    lemma_word_end(s@, a3 as int);
                }
                let times_word: [u8; 5] = [116, 105, 109, 101, 115];
                match number_at(s, a2, e2) {
                    None => None,
                    Some(n) => if word_is(s, a3, e3, times_word.as_slice()) {
                        Some((Instruction::Repetition(Box::new(inner), n), e3))
                    } else {
                        None
                    },
                }
            },
        }
    } else {
        let a2 = skip_spaces_at(s, e);
        proof {
            lemma_skip_spaces(s@, e as int);
        }
        let e2 = word_end_at(s, a2);
        proof {
            lemma_word_end(s@, a2 as int);
        }
        match action_at(s, a, e, a2, e2) {
            None => None,
            Some(act) => Some((Instruction::Action(act), e2)),
        }
    }
}

/// Reads all sentences of `s`, as `parse_program` describes.
fn parse_sentences(s: &[u8]) -> (r: Option<Vec<Instruction>>)
    ensures
        r is Some <==> parse_program(s@, 0) is Some,
        r matches Some(v) ==> parse_program(s@, 0) == Some(v@),
{
    let mut out: Vec<Instruction> = Vec::new();
    let mut i: usize = 0;
    loop
        invariant
            i <= s@.len(),
            parse_program(s@, 0) == match parse_program(s@, i as int) {
                None => None,
                Some(rest) => Some(out@ + rest),
            },
        decreases s@.len() - i,
    {
        let a = skip_spaces_at(s, i);
        proof {
            lemma_skip_spaces(s@, i as int);
        }
        if a >= s.len() {
            assert(out@ + Seq::<Instruction>::empty() =~= out@);
            return Some(out);
        }
        match parse_instr_at(s, a) {
            None => {
                return None;
            },
            Some((ins, j)) => {
                proof {
                    lemma_parse_instr_end(s@, a as int);
                }
                let p = skip_spaces_at(s, j);
                proof {
                    lemma_skip_spaces(s@, j as int);
                }
                if p < s.len() && s[p] == PERIOD {
                    let ghost before = out@;
                    proof {
                        if let Some(rest) = parse_program(s@, p + 1) {
                            assert(before + (seq![ins] + rest) =~= before.push(ins) + rest);
                        }
                    }
                    out.push(ins);
                    i = p + 1;
                } else {
                    return None;
                }
            },
        }
    }
}

/// The text is not a program of the language.
#[derive(Debug, PartialEq, Eq, Clone, Copy, Structural)]
pub struct SyntaxError;

/// Reads programs of the language into instruction trees.
#[derive(Debug, Clone, Copy)]
pub struct InstructionsParser;

impl InstructionsParser {
    pub fn new() -> (r: InstructionsParser) {
        InstructionsParser
    }

    /// Reads `text` as a series of sentences. Success gives a `List` of the
    /// sentences' instructions, in order; text that does not follow the
    /// grammar gives a `SyntaxError`.
    pub fn parse(&self, text: &str) -> (r: Result<Instruction, SyntaxError>)
        ensures
            parse_program(text.spec_bytes(), 0) is None <==> r is Err,
            parse_program(text.spec_bytes(), 0) matches Some(items) ==> r matches Ok(
                Instruction::List(v),
            ) && v@ == items,
    {
        let bytes = text.as_bytes();
        match parse_sentences(bytes) {
            Some(v) => Ok(Instruction::List(v)),
            None => Err(SyntaxError),
        }
    }
}

} // verus!

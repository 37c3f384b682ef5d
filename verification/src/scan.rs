//! Where the source of a type may have a byte literal of a character outside of ASCII.

use vstd::prelude::*;

verus! {

/// What begins at a position of a source.
pub enum Passage {
    /// A character of code.
    Code,
    /// A name or a lifetime, up to the position. A macro can be called by it, or not.
    Name(int, bool),
    /// A literal, up to the position.
    Literal(int),
    /// A comment that documents something, up to the position.
    Comment(int),
    /// Nothing that a type can be written with.
    Unclear,
}

/// A [`Passage`] that was found.
enum Found {
    Code,
    Name(usize, bool),
    Literal(usize),
    Comment(usize),
    Unclear,
}

impl Found {
    spec fn passage(self) -> Passage {
        match self {
            Found::Code => Passage::Code,
            Found::Name(end, plain) => Passage::Name(end as int, plain),
            Found::Literal(end) => Passage::Literal(end as int),
            Found::Comment(end) => Passage::Comment(end as int),
            Found::Unclear => Passage::Unclear,
        }
    }
}

/// What is known of the code before a position.
pub struct Context {
    /// An operand may end there, so that a `/` would divide it.
    pub operand: bool,
    /// It ends with a `#`.
    pub hash: bool,
    /// The last bracket was opened by a `#[` and has not been closed.
    pub attribute: bool,
    /// It ends with a name by which a macro can be called.
    pub name: bool,
    /// It ends with such a name and a `!`.
    pub call: bool,
    /// How many brackets are open since a macro was called.
    pub depth: nat,
}

/// A [`Context`] that is kept while a source is scanned.
struct State {
    operand: bool,
    hash: bool,
    attribute: bool,
    name: bool,
    call: bool,
    depth: usize,
}

impl View for State {
    type V = Context;

    closed spec fn view(&self) -> Context {
        Context {
            operand: self.operand,
            hash: self.hash,
            attribute: self.attribute,
            name: self.name,
            call: self.call,
            depth: self.depth as nat,
        }
    }
}

impl Context {
    /// Nothing comes before.
    pub open spec fn none() -> Context {
        Context {
            operand: false,
            hash: false,
            attribute: false,
            name: false,
            call: false,
            depth: 0,
        }
    }

    /// The context after another character of code.
    pub open spec fn past(self, c: char) -> Context {
        Context {
            operand: if c == ']' {
                !self.attribute
            } else {
                c != '{' && c != '(' && c != ',' && c != '<'
            },
            hash: c == '#',
            attribute: if c == '[' {
                self.hash
            } else {
                c != ']' && self.attribute
            },
            name: false,
            call: c == '!' && self.name,
            depth: if opens(c) && (self.call || self.depth > 0) {
                self.depth + 1
            } else if closes(c) && self.depth > 0 {
                (self.depth - 1) as nat
            } else {
                self.depth
            },
        }
    }

    /// The context after a name, by which a macro can be called or not.
    pub open spec fn past_name(self, plain: bool) -> Context {
        Context {
            operand: true,
            hash: false,
            attribute: self.attribute,
            name: plain,
            call: false,
            depth: self.depth,
        }
    }
}

/// The character is an opening bracket.
pub open spec fn opens(c: char) -> bool {
    c == '(' || c == '[' || c == '{'
}

/// The character is a closing bracket.
pub open spec fn closes(c: char) -> bool {
    c == ')' || c == ']' || c == '}'
}

/// The character is blank: it has the property `White_Space`, or marks a direction.
pub open spec fn is_space(c: char) -> bool {
    c == ' ' || '\t' <= c <= '\r' || c == '\u{85}' || c == '\u{a0}' || c == '\u{1680}' || '\u{2000}'
        <= c <= '\u{200a}' || c == '\u{200e}' || c == '\u{200f}' || c == '\u{2028}' || c
        == '\u{2029}' || c == '\u{202f}' || c == '\u{205f}' || c == '\u{3000}'
}

/// The character is a digit.
pub open spec fn is_digit(c: char) -> bool {
    '0' <= c <= '9'
}

/// The character is a letter, or one outside of ASCII that may be.
pub open spec fn is_letter(c: char) -> bool {
    'a' <= c <= 'z' || 'A' <= c <= 'Z' || c > '\x7f' && !is_space(c)
}

/// A name can start with the character.
pub open spec fn starts_name(c: char) -> bool {
    is_letter(c) || c == '_'
}

/// The character `c` is at position `i`.
pub open spec fn is_at(source: Seq<char>, i: int, c: char) -> bool {
    0 <= i < source.len() && source[i] == c
}

/// The word is at position `i`.
pub open spec fn reads(source: Seq<char>, i: int, word: Seq<char>) -> bool {
    0 <= i && i + word.len() <= source.len() && source.subrange(i, i + word.len()) == word
}

/// Where the name ends that has begun before position `i`.
pub open spec fn name_end(source: Seq<char>, i: int) -> int
    decreases source.len() - i,
{
    if 0 <= i < source.len() && (starts_name(source[i]) || is_digit(source[i])) {
        name_end(source, i + 1)
    } else {
        i
    }
}

/// Where the string ends that has begun before position `i`.
pub open spec fn string_end(source: Seq<char>, i: int) -> Option<int>
    decreases source.len() - i + 1,
{
    if i >= source.len() {
        None
    } else if source[i] == '"' {
        Some(i + 1)
    } else if source[i] == '\\' {
        string_end(source, i + 2)
    } else {
        string_end(source, i + 1)
    }
}

/// Where the next `'` ends.
pub open spec fn quote_end(source: Seq<char>, i: int) -> Option<int>
    decreases source.len() - i,
{
    if i >= source.len() {
        None
    } else if source[i] == '\'' {
        Some(i + 1)
    } else {
        quote_end(source, i + 1)
    }
}

/// Where the character literal ends that begins with the `'` at position `i`, if that is one.
pub open spec fn character_end(source: Seq<char>, i: int) -> Option<int> {
    if is_at(source, i + 1, '\\') {
        quote_end(source, i + 3)
    } else if is_at(source, i + 2, '\'') {
        Some(i + 3)
    } else {
        None
    }
}

/// How many `#` there are from position `i` on.
pub open spec fn hashes(source: Seq<char>, i: int) -> nat
    decreases source.len() - i,
{
    if is_at(source, i, '#') {
        1 + hashes(source, i + 1)
    } else {
        0
    }
}

/// Where the raw string with `n` times `#` ends that has begun before position `i`.
pub open spec fn raw_close(source: Seq<char>, i: int, n: nat) -> Option<int>
    decreases source.len() - i,
{
    if i >= source.len() {
        None
    } else if source[i] == '"' && hashes(source, i + 1) >= n {
        Some(i + 1 + n)
    } else {
        raw_close(source, i + 1, n)
    }
}

/// Where the raw string ends whose `r` is right before position `i`, if there is one.
pub open spec fn raw_end(source: Seq<char>, i: int) -> Option<int> {
    let n = hashes(source, i);
    if is_at(source, i + n, '"') {
        raw_close(source, i + n + 1, n)
    } else {
        None
    }
}

/// What is known of a number that may be a float.
pub struct Mantissa {
    /// Where its digits end, or its `e`.
    pub end: int,
    /// It has a point.
    pub point: bool,
    /// It ends with an `e`.
    pub exponent: bool,
}

/// The digits of a float from position `i` on, with at most one point, up to an `e`. There are
/// none if the point is followed by another one or by a name.
pub open spec fn mantissa(source: Seq<char>, i: int, point: bool) -> Option<Mantissa>
    decreases source.len() - i,
{
    if i >= source.len() {
        Some(Mantissa { end: i, point, exponent: false })
    } else if is_digit(source[i]) || source[i] == '_' {
        mantissa(source, i + 1, point)
    } else if source[i] == '.' && !point {
        if i + 1 < source.len() && (source[i + 1] == '.' || is_letter(source[i + 1])) {
            None
        } else {
            mantissa(source, i + 1, true)
        }
    } else if source[i] == 'e' || source[i] == 'E' {
        Some(Mantissa { end: i + 1, point, exponent: true })
    } else {
        Some(Mantissa { end: i, point, exponent: false })
    }
}

/// Where the exponent ends that goes on at position `i`, and has a digit so far or not.
pub open spec fn exponent_end(source: Seq<char>, i: int, digit: bool) -> Option<int>
    decreases source.len() - i,
{
    if i < source.len() && ((source[i] == '+' || source[i] == '-') && !digit || source[i] == '_') {
        exponent_end(source, i + 1, digit)
    } else if i < source.len() && is_digit(source[i]) {
        exponent_end(source, i + 1, true)
    } else if digit {
        Some(i)
    } else {
        None
    }
}

/// The suffix of a float is at position `i`.
pub open spec fn float_suffix(source: Seq<char>, i: int) -> bool {
    reads(source, i, "f32"@) || reads(source, i, "f64"@)
}

/// Where the float ends that begins with the digit right before position `i`, if it is one.
pub open spec fn float_end(source: Seq<char>, i: int) -> Option<int> {
    match mantissa(source, i, false) {
        None => None,
        Some(m) => {
            let end = if m.exponent {
                exponent_end(source, m.end, false)
            } else if m.point || float_suffix(source, m.end) {
                Some(m.end)
            } else {
                None
            };
            match end {
                Some(end) if float_suffix(source, end) => Some(end + 3),
                _ => end,
            }
        },
    }
}

/// The value of the character as a hexadecimal digit.
pub open spec fn digit_value(c: char) -> Option<int> {
    if is_digit(c) {
        Some(c as int - '0' as int)
    } else if 'a' <= c <= 'f' {
        Some(10 + c as int - 'a' as int)
    } else if 'A' <= c <= 'F' {
        Some(10 + c as int - 'A' as int)
    } else {
        None
    }
}

/// Where the digits to the base end from position `i` on, when there is none so far or not.
pub open spec fn digits_end(source: Seq<char>, i: int, base: int, empty: bool) -> Option<int>
    decreases source.len() - i,
{
    if i < source.len() && digit_value(source[i]) is Some {
        if digit_value(source[i])->0 >= base {
            None
        } else {
            digits_end(source, i + 1, base, false)
        }
    } else if i < source.len() && source[i] == '_' && !(empty && base == 10) {
        digits_end(source, i + 1, base, empty)
    } else if empty {
        None
    } else {
        Some(i)
    }
}

/// How long the suffix of an integer at position `i` is.
pub open spec fn integer_suffix(source: Seq<char>, i: int) -> int {
    if reads(source, i, "isize"@) || reads(source, i, "usize"@) {
        5
    } else if reads(source, i, "i16"@) || reads(source, i, "i32"@) || reads(source, i, "i64"@)
        || reads(source, i, "u16"@) || reads(source, i, "u32"@) || reads(source, i, "u64"@) {
        3
    } else if reads(source, i, "i8"@) || reads(source, i, "u8"@) {
        2
    } else {
        0
    }
}

/// Where the integer ends that begins at position `i`, if there is one.
pub open spec fn integer_end(source: Seq<char>, i: int) -> Option<int> {
    let end = if reads(source, i, "0x"@) {
        digits_end(source, i + 2, 16, true)
    } else if reads(source, i, "0o"@) {
        digits_end(source, i + 2, 8, true)
    } else if reads(source, i, "0b"@) {
        digits_end(source, i + 2, 2, true)
    } else {
        digits_end(source, i, 10, true)
    };
    match end {
        Some(end) => Some(end + integer_suffix(source, end)),
        None => None,
    }
}

/// Where the number ends that begins with the digit at position `i`, if it is one.
pub open spec fn number_end(source: Seq<char>, i: int) -> Option<int> {
    match float_end(source, i + 1) {
        Some(end) => Some(end),
        None => integer_end(source, i),
    }
}

/// Where the line ends.
pub open spec fn line_end(source: Seq<char>, i: int) -> int
    decreases source.len() - i,
{
    if i >= source.len() || source[i] == '\n' {
        i
    } else {
        line_end(source, i + 1)
    }
}

/// Where the comment ends that is open `depth` times before position `i`.
pub open spec fn block_end(source: Seq<char>, i: int, depth: nat) -> Option<int>
    decreases source.len() - i + 1,
{
    if i >= source.len() {
        None
    } else if source[i] == '/' && is_at(source, i + 1, '*') {
        block_end(source, i + 2, depth + 1)
    } else if source[i] == '*' && is_at(source, i + 1, '/') {
        if depth <= 1 {
            Some(i + 2)
        } else {
            block_end(source, i + 2, (depth - 1) as nat)
        }
    } else {
        block_end(source, i + 1, depth)
    }
}

/// The comment that begins with `//` or `/*` at position `i`, with the character `c` after the
/// `/`, documents something.
pub open spec fn documents(source: Seq<char>, i: int, c: char) -> bool {
    is_at(source, i + 2, '!') || is_at(source, i + 2, c) && !is_at(source, i + 3, c)
}

/// A comment begins at position `i` that goes to the end of the line and documents nothing.
pub open spec fn plain_line(source: Seq<char>, i: int) -> bool {
    is_at(source, i, '/') && is_at(source, i + 1, '/') && !documents(source, i, '/')
}

/// A comment begins at position `i` that has to be closed and documents nothing.
pub open spec fn plain_block(source: Seq<char>, i: int) -> bool {
    is_at(source, i, '/') && is_at(source, i + 1, '*') && !documents(source, i, '*')
}

/// Where the blanks end from position `i` on, and the comments that document nothing. They end
/// nowhere if one of those is not closed.
pub open spec fn blank_end(source: Seq<char>, i: int) -> Option<int>
    decreases source.len() - i,
{
    if i < 0 || i >= source.len() {
        Some(i)
    } else if is_space(source[i]) {
        blank_end(source, i + 1)
    } else if plain_line(source, i) {
        let end = line_end(source, i + 2);
        proof {
            line_goes_on(source, i + 2);
        }
        if end >= source.len() {
            Some(end)
        } else {
            blank_end(source, end + 1)
        }
    } else if plain_block(source, i) {
        proof {
            block_goes_on(source, i + 2, 1);
        }
        match block_end(source, i + 2, 1) {
            Some(end) => blank_end(source, end),
            None => None,
        }
    } else {
        Some(i)
    }
}

/// Where what is not blank begins from position `i` on. Where the blanks end nowhere, they are
/// none.
pub open spec fn skip_blank(source: Seq<char>, i: int) -> int {
    match blank_end(source, i) {
        Some(end) => end,
        None => i,
    }
}

/// A macro can be called by what stands between the positions. It cannot by the words that a type
/// may follow.
pub open spec fn calls_macro(source: Seq<char>, i: int, end: int) -> bool {
    &&& !(end == i + 2 && reads(source, i, "as"@))
    &&& !(end == i + 3 && reads(source, i, "mut"@))
    &&& !(end == i + 5 && reads(source, i, "const"@))
}

/// What begins at position `i`, where the code is not blank.
pub open spec fn passage(source: Seq<char>, i: int, context: Context) -> Passage {
    let c = source[i];
    if c == '\'' {
        match character_end(source, i) {
            Some(end) => Passage::Literal(end),
            None => {
                let name = skip_blank(source, i + 1);
                if name < source.len() && starts_name(source[name]) {
                    Passage::Name(name_end(source, name), false)
                } else {
                    Passage::Unclear
                }
            },
        }
    } else if c == '"' {
        match string_end(source, i + 1) {
            Some(end) => Passage::Literal(end),
            None => Passage::Unclear,
        }
    } else if c == 'r' && raw_end(source, i + 1) is Some {
        Passage::Literal(raw_end(source, i + 1)->0)
    } else if c == 'b' && is_at(source, i + 1, 'r') && raw_end(source, i + 2) is Some {
        Passage::Literal(raw_end(source, i + 2)->0)
    } else if is_digit(c) {
        match number_end(source, i) {
            Some(end) => Passage::Literal(end),
            None => Passage::Unclear,
        }
    } else if starts_name(c) {
        let end = name_end(source, i);
        Passage::Name(end, calls_macro(source, i, end))
    } else if c == '/' && is_at(source, i + 1, '/') && documents(source, i, '/') && line_end(
        source,
        i + 2,
    ) < source.len() {
        Passage::Comment(line_end(source, i + 2))
    } else if c == '/' && is_at(source, i + 1, '*') && documents(source, i, '*') && block_end(
        source,
        i + 2,
        1,
    ) is Some && (context.depth > 0 || !context.operand) {
        Passage::Comment(block_end(source, i + 2, 1)->0)
    } else if is_space(c) {
        Passage::Unclear
    } else {
        Passage::Code
    }
}

/// At position `i` there are the first characters of a byte literal, and the one in it is outside
/// of ASCII.
pub open spec fn wide_byte_at(source: Seq<char>, i: int) -> bool {
    0 <= i < source.len() - 2 && source[i] == 'b' && source[i + 1] == '\'' && source[i + 2] > '\x7f'
}

/// From position `i` on, there may be a byte literal of a character outside of ASCII. If something
/// is met that a type cannot be written with, all that looks like one counts.
pub open spec fn wide_byte_from(source: Seq<char>, i: int, context: Context) -> bool
    decreases source.len() - i,
{
    if i < 0 || i >= source.len() {
        false
    } else if skip_blank(source, i) > i {
        proof {
            blank_goes_on(source, i);
        }
        wide_byte_from(source, skip_blank(source, i), context)
    } else if wide_byte_at(source, i) {
        true
    } else {
        proof {
            passage_goes_on(source, i, context);
        }
        match passage(source, i, context) {
            Passage::Code => wide_byte_from(source, i + 1, context.past(source[i])),
            Passage::Name(end, plain) => wide_byte_from(source, end, context.past_name(plain)),
            Passage::Literal(end) => wide_byte_from(source, end, context.past_name(false)),
            Passage::Comment(end) => wide_byte_from(source, end, context),
            Passage::Unclear => exists|j: int| wide_byte_at(source, j),
        }
    }
}

/// The source may have a byte literal of a character outside of ASCII: outside of other literals,
/// names and comments, there is what looks like one.
pub open spec fn has_wide_byte(source: Seq<char>) -> bool {
    wide_byte_from(source, 0, Context::none())
}

/// Only a source that has the first characters of such a literal somewhere can have one.
pub proof fn wide_byte_is_somewhere(source: Seq<char>)
    requires
        has_wide_byte(source),
    ensures
        exists|i: int| wide_byte_at(source, i),
{
    wide_byte_is_further_on(source, 0, Context::none());
}

proof fn wide_byte_is_further_on(source: Seq<char>, i: int, context: Context)
    requires
        wide_byte_from(source, i, context),
    ensures
        exists|j: int| wide_byte_at(source, j),
    decreases source.len() - i,
{
    if skip_blank(source, i) > i {
        blank_goes_on(source, i);
        wide_byte_is_further_on(source, skip_blank(source, i), context);
    } else if !wide_byte_at(source, i) {
        passage_goes_on(source, i, context);
        match passage(source, i, context) {
            Passage::Code => wide_byte_is_further_on(source, i + 1, context.past(source[i])),
            Passage::Name(end, plain) => wide_byte_is_further_on(
                source,
                end,
                context.past_name(plain),
            ),
            Passage::Literal(end) => wide_byte_is_further_on(
                source,
                end,
                context.past_name(false),
            ),
            Passage::Comment(end) => wide_byte_is_further_on(source, end, context),
            Passage::Unclear => {},
        }
    }
}

/// A name, a literal or a comment ends after it has begun, and within the source.
pub proof fn passage_goes_on(source: Seq<char>, i: int, context: Context)
    requires
        0 <= i < source.len(),
    ensures
        passage(source, i, context) matches Passage::Name(end, plain) ==> i < end <= source.len(),
        passage(source, i, context) matches Passage::Literal(end) ==> i < end <= source.len(),
        passage(source, i, context) matches Passage::Comment(end) ==> i < end <= source.len(),
{
    let name = skip_blank(source, i + 1);
    blank_goes_on(source, i + 1);
    name_goes_on(source, i + 1);
    if name < source.len() {
        name_goes_on(source, name + 1);
    }
    string_goes_on(source, i + 1);
    quote_goes_on(source, i + 3);
    raw_goes_on(source, i + 1 + hashes(source, i + 1) + 1, hashes(source, i + 1));
    raw_goes_on(source, i + 2 + hashes(source, i + 2) + 1, hashes(source, i + 2));
    number_goes_on(source, i);
    line_goes_on(source, i + 2);
    block_goes_on(source, i + 2, 1);
}

proof fn name_goes_on(source: Seq<char>, i: int)
    requires
        0 <= i <= source.len(),
    ensures
        i <= name_end(source, i) <= source.len(),
    decreases source.len() - i,
{
    if i < source.len() {
        name_goes_on(source, i + 1);
    }
}

/// Blanks end within the source.
pub proof fn blank_goes_on(source: Seq<char>, i: int)
    requires
        0 <= i <= source.len(),
    ensures
        blank_end(source, i) matches Some(end) ==> i <= end <= source.len(),
        i <= skip_blank(source, i) <= source.len(),
    decreases source.len() - i,
{
    if i < source.len() {
        if is_space(source[i]) {
            blank_goes_on(source, i + 1);
        } else if plain_line(source, i) {
            line_goes_on(source, i + 2);
            if line_end(source, i + 2) < source.len() {
                blank_goes_on(source, line_end(source, i + 2) + 1);
            }
        } else if plain_block(source, i) {
            block_goes_on(source, i + 2, 1);
            if let Some(end) = block_end(source, i + 2, 1) {
                blank_goes_on(source, end);
            }
        }
    }
}

proof fn number_goes_on(source: Seq<char>, i: int)
    requires
        0 <= i < source.len(),
    ensures
        is_digit(source[i]) ==> (number_end(source, i) matches Some(end) ==> i < end
            <= source.len()),
{
    if is_digit(source[i]) {
        suffixes_are_short();
        mantissa_goes_on(source, i + 1, false);
        if let Some(m) = mantissa(source, i + 1, false) {
            exponent_goes_on(source, m.end, false);
        }
        digits_go_on(source, i, 10, true);
        if i + 2 <= source.len() {
            digits_go_on(source, i + 2, 16, true);
            digits_go_on(source, i + 2, 8, true);
            digits_go_on(source, i + 2, 2, true);
        }
    }
}

/// How long the words around the digits of a number are.
proof fn suffixes_are_short()
    ensures
        "f32"@.len() == 3,
        "f64"@.len() == 3,
        "isize"@.len() == 5,
        "usize"@.len() == 5,
        "i16"@.len() == 3,
        "i32"@.len() == 3,
        "i64"@.len() == 3,
        "u16"@.len() == 3,
        "u32"@.len() == 3,
        "u64"@.len() == 3,
        "i8"@.len() == 2,
        "u8"@.len() == 2,
        "0x"@.len() == 2,
        "0o"@.len() == 2,
        "0b"@.len() == 2,
{
    reveal_strlit("f32");
    reveal_strlit("f64");
    reveal_strlit("isize");
    reveal_strlit("usize");
    reveal_strlit("i16");
    reveal_strlit("i32");
    reveal_strlit("i64");
    reveal_strlit("u16");
    reveal_strlit("u32");
    reveal_strlit("u64");
    reveal_strlit("i8");
    reveal_strlit("u8");
    reveal_strlit("0x");
    reveal_strlit("0o");
    reveal_strlit("0b");
}

proof fn mantissa_goes_on(source: Seq<char>, i: int, point: bool)
    requires
        0 <= i <= source.len(),
    ensures
        mantissa(source, i, point) matches Some(m) ==> i <= m.end <= source.len(),
    decreases source.len() - i,
{
    if i < source.len() {
        mantissa_goes_on(source, i + 1, point);
        mantissa_goes_on(source, i + 1, true);
    }
}

proof fn exponent_goes_on(source: Seq<char>, i: int, digit: bool)
    requires
        0 <= i <= source.len(),
    ensures
        exponent_end(source, i, digit) matches Some(end) ==> i <= end <= source.len(),
    decreases source.len() - i,
{
    if i < source.len() {
        exponent_goes_on(source, i + 1, digit);
        exponent_goes_on(source, i + 1, true);
    }
}

proof fn digits_go_on(source: Seq<char>, i: int, base: int, empty: bool)
    requires
        0 <= i <= source.len(),
    ensures
        digits_end(source, i, base, empty) matches Some(end) ==> i <= end <= source.len(),
        digits_end(source, i, base, true) matches Some(end) ==> i < end,
    decreases source.len() - i,
{
    if i < source.len() {
        digits_go_on(source, i + 1, base, empty);
        digits_go_on(source, i + 1, base, false);
    }
}

proof fn string_goes_on(source: Seq<char>, i: int)
    ensures
        string_end(source, i) matches Some(end) ==> i < end <= source.len(),
    decreases source.len() - i + 1,
{
    if i < source.len() {
        string_goes_on(source, i + 1);
        string_goes_on(source, i + 2);
    }
}

proof fn quote_goes_on(source: Seq<char>, i: int)
    ensures
        quote_end(source, i) matches Some(end) ==> i < end <= source.len(),
    decreases source.len() - i,
{
    if i < source.len() {
        quote_goes_on(source, i + 1);
    }
}

proof fn hashes_stop(source: Seq<char>, i: int)
    requires
        0 <= i <= source.len(),
    ensures
        i + hashes(source, i) <= source.len(),
    decreases source.len() - i,
{
    if is_at(source, i, '#') {
        hashes_stop(source, i + 1);
    }
}

proof fn raw_goes_on(source: Seq<char>, i: int, n: nat)
    requires
        0 <= i,
    ensures
        raw_close(source, i, n) matches Some(end) ==> i < end <= source.len(),
    decreases source.len() - i,
{
    if i < source.len() {
        hashes_stop(source, i + 1);
        raw_goes_on(source, i + 1, n);
    }
}

/// A line ends within the source.
pub proof fn line_goes_on(source: Seq<char>, i: int)
    ensures
        i <= line_end(source, i),
        i <= source.len() ==> line_end(source, i) <= source.len(),
    decreases source.len() - i,
{
    if i < source.len() {
        line_goes_on(source, i + 1);
    }
}

/// A comment that is closed ends within the source.
pub proof fn block_goes_on(source: Seq<char>, i: int, depth: nat)
    ensures
        block_end(source, i, depth) matches Some(end) ==> i < end <= source.len(),
    decreases source.len() - i + 1,
{
    if i < source.len() {
        block_goes_on(source, i + 1, depth);
        block_goes_on(source, i + 2, depth + 1);
        if depth > 1 {
            block_goes_on(source, i + 2, (depth - 1) as nat);
        }
    }
}

/// The characters of a text.
fn characters(source: &str) -> (text: Vec<char>)
    ensures
        text@ == source@,
{
    broadcast use vstd::string::axiom_spec_iter;

    let mut text: Vec<char> = Vec::new();
    for c in it: source.chars()
        invariant
            it.seq() == source@,
            text@ == source@.take(it.index() as int),
    {
        text.push(c);
    }
    proof {
        assert(source@.take(source@.len() as int) =~= source@);
    }
    text
}

/// Both are none, or both are the same position.
spec fn same_end(found: Option<usize>, end: Option<int>) -> bool {
    match found {
        Some(position) => end == Some(position as int),
        None => end is None,
    }
}

fn at(text: &Vec<char>, i: usize, c: char) -> (found: bool)
    ensures
        found == is_at(text@, i as int, c),
{
    i < text.len() && text[i] == c
}

fn find_string_end(text: &Vec<char>, from: usize) -> (end: Option<usize>)
    requires
        from <= text@.len(),
    ensures
        same_end(end, string_end(text@, from as int)),
{
    let n: usize = text.len();
    let mut i: usize = from;
    while i < n
        invariant
            n == text@.len(),
            i <= n,
            string_end(text@, from as int) == string_end(text@, i as int),
        decreases n - i,
    {
        if text[i] == '"' {
            return Some(i + 1);
        }
        if text[i] == '\\' {
            if n - i < 2 {
                assert(string_end(text@, i + 2) is None);
                return None;
            }
            i = i + 2;
        } else {
            i = i + 1;
        }
    }
    None
}

fn find_quote_end(text: &Vec<char>, from: usize) -> (end: Option<usize>)
    ensures
        same_end(end, quote_end(text@, from as int)),
{
    let n: usize = text.len();
    let mut i: usize = from;
    while i < n
        invariant
            n == text@.len(),
            quote_end(text@, from as int) == quote_end(text@, i as int),
        decreases n - i,
    {
        if text[i] == '\'' {
            return Some(i + 1);
        }
        i = i + 1;
    }
    None
}

fn find_character_end(text: &Vec<char>, i: usize) -> (end: Option<usize>)
    requires
        i < text@.len(),
    ensures
        same_end(end, character_end(text@, i as int)),
{
    let n: usize = text.len();
    if n - i < 3 {
        if at(text, i + 1, '\\') {
            proof {
                quote_goes_on(text@, i + 3);
            }
        }
        return None;
    }
    if text[i + 1] == '\\' {
        if n - i == 3 {
            None
        } else {
            find_quote_end(text, i + 3)
        }
    } else if text[i + 2] == '\'' {
        Some(i + 3)
    } else {
        None
    }
}

fn count_hashes(text: &Vec<char>, from: usize) -> (count: usize)
    requires
        from <= text@.len(),
    ensures
        count == hashes(text@, from as int),
        from + count <= text@.len(),
{
    let n: usize = text.len();
    let mut i: usize = from;
    while i < n && text[i] == '#'
        invariant
            n == text@.len(),
            from <= i <= n,
            hashes(text@, from as int) == (i - from) + hashes(text@, i as int),
        decreases n - i,
    {
        i = i + 1;
    }
    i - from
}

fn find_raw_end(text: &Vec<char>, from: usize) -> (end: Option<usize>)
    requires
        from <= text@.len(),
    ensures
        same_end(end, raw_end(text@, from as int)),
{
    let n: usize = text.len();
    let count: usize = count_hashes(text, from);
    if !at(text, from + count, '"') {
        return None;
    }
    let mut i: usize = from + count + 1;
    while i < n
        invariant
            n == text@.len(),
            i <= n,
            raw_end(text@, from as int) == raw_close(text@, i as int, count as nat),
        decreases n - i,
    {
        if text[i] == '"' {
            let closing: usize = count_hashes(text, i + 1);
            if closing >= count {
                return Some(i + 1 + count);
            }
        }
        i = i + 1;
    }
    None
}

fn find_line_end(text: &Vec<char>, from: usize) -> (end: usize)
    requires
        from <= text@.len(),
    ensures
        end == line_end(text@, from as int),
{
    let mut i: usize = from;
    while i < text.len() && text[i] != '\n'
        invariant
            i <= text@.len(),
            line_end(text@, from as int) == line_end(text@, i as int),
        decreases text@.len() - i,
    {
        i = i + 1;
    }
    i
}

fn find_block_end(text: &Vec<char>, from: usize) -> (end: Option<usize>)
    requires
        0 < from <= text@.len(),
    ensures
        same_end(end, block_end(text@, from as int, 1)),
{
    let n: usize = text.len();
    let mut i: usize = from;
    let mut depth: usize = 1;
    while i < n
        invariant
            n == text@.len(),
            i <= n,
            1 <= depth <= i,
            block_end(text@, from as int, 1) == block_end(text@, i as int, depth as nat),
        decreases n - i,
    {
        if text[i] == '/' && at(text, i + 1, '*') {
            depth = depth + 1;
            i = i + 2;
        } else if text[i] == '*' && at(text, i + 1, '/') {
            if depth == 1 {
                return Some(i + 2);
            }
            depth = depth - 1;
            i = i + 2;
        } else {
            i = i + 1;
        }
    }
    None
}

fn reads_at(text: &Vec<char>, i: usize, word: &str) -> (found: bool)
    requires
        i <= text@.len(),
    ensures
        found == reads(text@, i as int, word@),
{
    let letters = characters(word);
    let length: usize = text.len();
    if length - i < letters.len() {
        return false;
    }
    let mut n: usize = 0;
    while n < letters.len()
        invariant
            length == text@.len(),
            i + letters@.len() <= text@.len(),
            letters@ == word@,
            n <= letters@.len(),
            forall|k: int| 0 <= k < n ==> #[trigger] letters@[k] == text@[i + k],
        decreases letters@.len() - n,
    {
        if letters[n] != text[i + n] {
            proof {
                assert(text@.subrange(i as int, i + word@.len())[n as int] != word@[n as int]);
            }
            return false;
        }
        n = n + 1;
    }
    proof {
        assert(text@.subrange(i as int, i + word@.len()) =~= word@);
    }
    true
}

fn space(c: char) -> (is: bool)
    ensures
        is == is_space(c),
{
    c == ' ' || ('\t' <= c && c <= '\r') || c == '\u{85}' || c == '\u{a0}' || c == '\u{1680}' || (
    '\u{2000}' <= c && c <= '\u{200a}') || c == '\u{200e}' || c == '\u{200f}' || c == '\u{2028}'
        || c == '\u{2029}' || c == '\u{202f}' || c == '\u{205f}' || c == '\u{3000}'
}

fn digit(c: char) -> (is: bool)
    ensures
        is == is_digit(c),
{
    '0' <= c && c <= '9'
}

fn letter(c: char) -> (is: bool)
    ensures
        is == is_letter(c),
{
    ('a' <= c && c <= 'z') || ('A' <= c && c <= 'Z') || c > '\x7f' && !space(c)
}

fn can_start_name(c: char) -> (can: bool)
    ensures
        can == starts_name(c),
{
    letter(c) || c == '_'
}

fn find_name_end(text: &Vec<char>, from: usize) -> (end: usize)
    requires
        from <= text@.len(),
    ensures
        end == name_end(text@, from as int),
{
    let mut i: usize = from;
    while i < text.len() && (can_start_name(text[i]) || digit(text[i]))
        invariant
            i <= text@.len(),
            name_end(text@, from as int) == name_end(text@, i as int),
        decreases text@.len() - i,
    {
        i = i + 1;
    }
    i
}

/// Where the digits of a float end, or its `e`, whether it has a point, and whether it ends with
/// an `e`.
fn find_mantissa(text: &Vec<char>, from: usize) -> (found: Option<(usize, bool, bool)>)
    requires
        from <= text@.len(),
    ensures
        match found {
            Some((end, point, exponent)) => mantissa(text@, from as int, false) == Some(
                Mantissa { end: end as int, point, exponent },
            ) && end <= text@.len(),
            None => mantissa(text@, from as int, false) is None,
        },
{
    let n: usize = text.len();
    let mut i: usize = from;
    let mut point: bool = false;
    while i < n
        invariant
            n == text@.len(),
            i <= n,
            mantissa(text@, from as int, false) == mantissa(text@, i as int, point),
        decreases n - i,
    {
        let c = text[i];
        if digit(c) || c == '_' {
            i = i + 1;
        } else if c == '.' && !point {
            if n - i > 1 && (text[i + 1] == '.' || letter(text[i + 1])) {
                return None;
            }
            point = true;
            i = i + 1;
        } else if c == 'e' || c == 'E' {
            return Some((i + 1, point, true));
        } else {
            return Some((i, point, false));
        }
    }
    Some((i, point, false))
}

fn find_exponent_end(text: &Vec<char>, from: usize) -> (end: Option<usize>)
    requires
        from <= text@.len(),
    ensures
        same_end(end, exponent_end(text@, from as int, false)),
        end matches Some(i) ==> i <= text@.len(),
{
    let n: usize = text.len();
    let mut i: usize = from;
    let mut seen: bool = false;
    while i < n
        invariant
            n == text@.len(),
            i <= n,
            exponent_end(text@, from as int, false) == exponent_end(text@, i as int, seen),
        decreases n - i,
    {
        let c = text[i];
        if (c == '+' || c == '-') && !seen || c == '_' {
            i = i + 1;
        } else if digit(c) {
            seen = true;
            i = i + 1;
        } else {
            return if seen {
                Some(i)
            } else {
                None
            };
        }
    }
    if seen {
        Some(i)
    } else {
        None
    }
}

fn has_float_suffix(text: &Vec<char>, i: usize) -> (has: bool)
    requires
        i <= text@.len(),
    ensures
        has == float_suffix(text@, i as int),
        has ==> i + 3 <= text@.len(),
{
    proof {
        suffixes_are_short();
    }
    reads_at(text, i, "f32") || reads_at(text, i, "f64")
}

fn find_float_end(text: &Vec<char>, from: usize) -> (end: Option<usize>)
    requires
        from <= text@.len() <= usize::MAX,
    ensures
        same_end(end, float_end(text@, from as int)),
{
    match find_mantissa(text, from) {
        None => None,
        Some((digits, point, exponent)) => {
            let end: Option<usize> = if exponent {
                find_exponent_end(text, digits)
            } else if point || has_float_suffix(text, digits) {
                Some(digits)
            } else {
                None
            };
            match end {
                Some(i) => if has_float_suffix(text, i) {
                    Some(i + 3)
                } else {
                    Some(i)
                },
                None => None,
            }
        },
    }
}

/// Whether the character is a digit to the base 16, and whether one to the given base.
fn digit_to(c: char, base: u32) -> (is: (bool, bool))
    requires
        base == 2 || base == 8 || base == 10 || base == 16,
    ensures
        is.0 == (digit_value(c) is Some),
        is.0 ==> is.1 == (digit_value(c)->0 < base),
{
    if digit(c) {
        (true, base > 8 || c <= '1' || base == 8 && c <= '7')
    } else {
        (('a' <= c && c <= 'f') || ('A' <= c && c <= 'F'), base == 16)
    }
}

fn find_digits_end(text: &Vec<char>, from: usize, base: u32) -> (end: Option<usize>)
    requires
        from <= text@.len(),
        base == 2 || base == 8 || base == 10 || base == 16,
    ensures
        same_end(end, digits_end(text@, from as int, base as int, true)),
        end matches Some(i) ==> i <= text@.len(),
{
    let n: usize = text.len();
    let mut i: usize = from;
    let mut empty: bool = true;
    while i < n
        invariant
            n == text@.len(),
            i <= n,
            base == 2 || base == 8 || base == 10 || base == 16,
            digits_end(text@, from as int, base as int, true) == digits_end(
                text@,
                i as int,
                base as int,
                empty,
            ),
        decreases n - i,
    {
        let c = text[i];
        let (is_hex, fits) = digit_to(c, base);
        if is_hex {
            if !fits {
                return None;
            }
            empty = false;
            i = i + 1;
        } else if c == '_' && !(empty && base == 10) {
            i = i + 1;
        } else {
            return if empty {
                None
            } else {
                Some(i)
            };
        }
    }
    if empty {
        None
    } else {
        Some(i)
    }
}

fn find_integer_suffix(text: &Vec<char>, i: usize) -> (length: usize)
    requires
        i <= text@.len(),
    ensures
        length == integer_suffix(text@, i as int),
        i + length <= text@.len(),
{
    proof {
        suffixes_are_short();
    }
    if reads_at(text, i, "isize") || reads_at(text, i, "usize") {
        5
    } else if reads_at(text, i, "i16") || reads_at(text, i, "i32") || reads_at(text, i, "i64")
        || reads_at(text, i, "u16") || reads_at(text, i, "u32") || reads_at(text, i, "u64") {
        3
    } else if reads_at(text, i, "i8") || reads_at(text, i, "u8") {
        2
    } else {
        0
    }
}

fn find_integer_end(text: &Vec<char>, i: usize) -> (end: Option<usize>)
    requires
        i < text@.len() <= usize::MAX,
    ensures
        same_end(end, integer_end(text@, i as int)),
{
    proof {
        suffixes_are_short();
    }
    let end: Option<usize> = if reads_at(text, i, "0x") {
        find_digits_end(text, i + 2, 16)
    } else if reads_at(text, i, "0o") {
        find_digits_end(text, i + 2, 8)
    } else if reads_at(text, i, "0b") {
        find_digits_end(text, i + 2, 2)
    } else {
        find_digits_end(text, i, 10)
    };
    match end {
        Some(digits) => Some(digits + find_integer_suffix(text, digits)),
        None => None,
    }
}

fn find_number_end(text: &Vec<char>, i: usize) -> (end: Option<usize>)
    requires
        i < text@.len() <= usize::MAX,
    ensures
        same_end(end, number_end(text@, i as int)),
{
    match find_float_end(text, i + 1) {
        Some(end) => Some(end),
        None => find_integer_end(text, i),
    }
}

fn is_documentation(text: &Vec<char>, i: usize, c: char) -> (is: bool)
    requires
        i + 1 < text@.len(),
    ensures
        is == documents(text@, i as int, c),
{
    if text.len() - i < 3 {
        return false;
    }
    at(text, i + 2, '!') || at(text, i + 2, c) && !at(text, i + 3, c)
}

fn find_blank_end(text: &Vec<char>, from: usize) -> (end: Option<usize>)
    requires
        from <= text@.len(),
    ensures
        same_end(end, blank_end(text@, from as int)),
{
    let n: usize = text.len();
    let mut i: usize = from;
    while i < n
        invariant
            n == text@.len(),
            i <= n,
            blank_end(text@, from as int) == blank_end(text@, i as int),
        decreases n - i,
    {
        if space(text[i]) {
            i = i + 1;
        } else if text[i] == '/' && at(text, i + 1, '/') && !is_documentation(text, i, '/') {
            let end: usize = find_line_end(text, i + 2);
            proof {
                line_goes_on(text@, i + 2);
            }
            if end >= n {
                return Some(end);
            }
            i = end + 1;
        } else if text[i] == '/' && at(text, i + 1, '*') && !is_documentation(text, i, '*') {
            proof {
                block_goes_on(text@, i + 2, 1);
            }
            match find_block_end(text, i + 2) {
                Some(end) => {
                    i = end;
                },
                None => {
                    return None;
                },
            }
        } else {
            return Some(i);
        }
    }
    Some(i)
}

fn find_after_blank(text: &Vec<char>, i: usize) -> (end: usize)
    requires
        i <= text@.len(),
    ensures
        end == skip_blank(text@, i as int),
{
    match find_blank_end(text, i) {
        Some(end) => end,
        None => i,
    }
}

fn can_call_macro(text: &Vec<char>, i: usize, end: usize) -> (can: bool)
    requires
        i <= end <= text@.len(),
    ensures
        can == calls_macro(text@, i as int, end as int),
{
    !(end - i == 2 && reads_at(text, i, "as")) && !(end - i == 3 && reads_at(text, i, "mut"))
        && !(end - i == 5 && reads_at(text, i, "const"))
}

impl State {
    fn past(self, c: char) -> (next: State)
        requires
            self.depth < usize::MAX,
        ensures
            next@ == self@.past(c),
            next.depth <= self.depth + 1,
    {
        let opened: bool = c == '(' || c == '[' || c == '{';
        let closed: bool = c == ')' || c == ']' || c == '}';
        State {
            operand: if c == ']' {
                !self.attribute
            } else {
                c != '{' && c != '(' && c != ',' && c != '<'
            },
            hash: c == '#',
            attribute: if c == '[' {
                self.hash
            } else {
                c != ']' && self.attribute
            },
            name: false,
            call: c == '!' && self.name,
            depth: if opened && (self.call || self.depth > 0) {
                self.depth + 1
            } else if closed && self.depth > 0 {
                self.depth - 1
            } else {
                self.depth
            },
        }
    }

    fn past_name(self, plain: bool) -> (next: State)
        ensures
            next@ == self@.past_name(plain),
            next.depth == self.depth,
    {
        State {
            operand: true,
            hash: false,
            attribute: self.attribute,
            name: plain,
            call: false,
            depth: self.depth,
        }
    }
}

fn find_passage(text: &Vec<char>, i: usize, state: &State) -> (found: Found)
    requires
        i < text@.len(),
    ensures
        found.passage() == passage(text@, i as int, state@),
{
    let n: usize = text.len();
    let c = text[i];
    if c == '\'' {
        return match find_character_end(text, i) {
            Some(end) => Found::Literal(end),
            None => {
                let name: usize = find_after_blank(text, i + 1);
                proof {
                    blank_goes_on(text@, i + 1);
                }
                if name < n && can_start_name(text[name]) {
                    Found::Name(find_name_end(text, name), false)
                } else {
                    Found::Unclear
                }
            },
        };
    }
    if c == '"' {
        return match find_string_end(text, i + 1) {
            Some(end) => Found::Literal(end),
            None => Found::Unclear,
        };
    }
    if c == 'r' {
        if let Some(end) = find_raw_end(text, i + 1) {
            return Found::Literal(end);
        }
    }
    if c == 'b' && at(text, i + 1, 'r') {
        if let Some(end) = find_raw_end(text, i + 2) {
            return Found::Literal(end);
        }
    }
    if digit(c) {
        return match find_number_end(text, i) {
            Some(end) => Found::Literal(end),
            None => Found::Unclear,
        };
    }
    if can_start_name(c) {
        let end: usize = find_name_end(text, i);
        proof {
            name_goes_on(text@, i as int);
        }
        return Found::Name(end, can_call_macro(text, i, end));
    }
    if c == '/' && at(text, i + 1, '/') && is_documentation(text, i, '/') {
        let end: usize = find_line_end(text, i + 2);
        if end < n {
            return Found::Comment(end);
        }
    }
    if c == '/' && at(text, i + 1, '*') && is_documentation(text, i, '*') && (state.depth > 0
        || !state.operand) {
        if let Some(end) = find_block_end(text, i + 2) {
            return Found::Comment(end);
        }
    }
    if space(c) {
        Found::Unclear
    } else {
        Found::Code
    }
}

fn starts_wide_byte(text: &Vec<char>, i: usize) -> (starts: bool)
    requires
        i < text@.len(),
    ensures
        starts == wide_byte_at(text@, i as int),
{
    text.len() - i > 2 && text[i] == 'b' && text[i + 1] == '\'' && text[i + 2] > '\x7f'
}

fn has_any(text: &Vec<char>) -> (found: bool)
    ensures
        found == exists|j: int| wide_byte_at(text@, j),
{
    let mut i: usize = 0;
    while i < text.len()
        invariant
            i <= text@.len(),
            forall|j: int| 0 <= j < i ==> !wide_byte_at(text@, j),
        decreases text@.len() - i,
    {
        if starts_wide_byte(text, i) {
            return true;
        }
        i = i + 1;
    }
    false
}

/// Whether the source may have a byte literal of a character outside of ASCII.
pub fn finds_wide_byte(source: &str) -> (found: bool)
    ensures
        found == has_wide_byte(source@),
{
    let text = characters(source);
    let mut i: usize = 0;
    let mut state = State {
        operand: false,
        hash: false,
        attribute: false,
        name: false,
        call: false,
        depth: 0,
    };
    while i < text.len()
        invariant
            i <= text@.len(),
            text@ == source@,
            state.depth <= i,
            has_wide_byte(source@) == wide_byte_from(text@, i as int, state@),
        decreases text@.len() - i,
    {
        proof {
            blank_goes_on(text@, i as int);
        }
        let next: usize = find_after_blank(&text, i);
        if next > i {
            i = next;
            continue;
        }
        if starts_wide_byte(&text, i) {
            return true;
        }
        proof {
            passage_goes_on(text@, i as int, state@);
        }
        match find_passage(&text, i, &state) {
            Found::Code => {
                state = state.past(text[i]);
                i = i + 1;
            },
            Found::Name(end, plain) => {
                state = state.past_name(plain);
                i = end;
            },
            Found::Literal(end) => {
                state = state.past_name(false);
                i = end;
            },
            Found::Comment(end) => {
                i = end;
            },
            Found::Unclear => {
                return has_any(&text);
            },
        }
    }
    false
}

} // verus!

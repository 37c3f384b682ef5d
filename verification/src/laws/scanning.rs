//! What holds of looking for byte literals in a source.

use vstd::prelude::*;

use crate::scan;
use crate::scan::Context;

verus! {

/// The search begins at the beginning, with nothing before it.
pub proof fn the_search_begins_at_the_beginning(source: Seq<char>)
    ensures
        scan::has_wide_byte(source) == scan::wide_byte_from(
            source,
            0,
            Context {
                operand: false,
                hash: false,
                attribute: false,
                name: false,
                call: false,
                depth: 0,
            },
        ),
        source.len() == 0 ==> !scan::has_wide_byte(source),
{
}

/// A byte literal of a character outside of ASCII is found where it begins.
pub proof fn a_wide_byte_is_found(source: Seq<char>, i: int, context: Context)
    requires
        0 <= i,
        i + 2 < source.len(),
        source[i] == 'b',
        source[i + 1] == '\'',
        source[i + 2] > '\x7f',
    ensures
        scan::wide_byte_from(source, i, context),
{
}

/// A source without the first characters of such a literal has none.
pub proof fn nothing_else_is_found(source: Seq<char>)
    requires
        forall|i: int|
            0 <= i && i + 2 < source.len() ==> !(#[trigger] source[i] == 'b' && source[i + 1]
                == '\'' && source[i + 2] > '\x7f'),
    ensures
        !scan::has_wide_byte(source),
{
    if scan::has_wide_byte(source) {
        scan::wide_byte_is_somewhere(source);
        let i = choose|i: int| scan::wide_byte_at(source, i);
        assert(source[i] == 'b');
    }
}

/// Which characters are blank, digits, letters, or begin a name.
pub proof fn characters_are_told_apart(c: char)
    ensures
        scan::is_space(c) <==> {
            ||| c == ' '
            ||| '\t' <= c <= '\r'
            ||| c == '\u{85}'
            ||| c == '\u{a0}'
            ||| c == '\u{1680}'
            ||| '\u{2000}' <= c <= '\u{200a}'
            ||| c == '\u{200e}'
            ||| c == '\u{200f}'
            ||| c == '\u{2028}'
            ||| c == '\u{2029}'
            ||| c == '\u{202f}'
            ||| c == '\u{205f}'
            ||| c == '\u{3000}'
        },
        scan::is_digit(c) <==> '0' <= c <= '9',
        c <= '\x7f' ==> (scan::is_letter(c) <==> 'a' <= c <= 'z' || 'A' <= c <= 'Z'),
        c > '\x7f' ==> (scan::is_letter(c) <==> !scan::is_space(c)),
        scan::starts_name(c) <==> scan::is_letter(c) || c == '_',
        scan::opens(c) <==> c == '(' || c == '[' || c == '{',
        scan::closes(c) <==> c == ')' || c == ']' || c == '}',
{
}

/// What is known of the code before a position follows each of its characters.
pub proof fn the_context_follows_the_code(context: Context, c: char)
    ensures
        ({
            let after = context.past(c);
            &&& c == '{' || c == '(' || c == ',' || c == '<' ==> !after.operand
            &&& c == ']' ==> after.operand == !context.attribute && !after.attribute
            &&& c != '{' && c != '(' && c != ',' && c != '<' && c != ']' ==> after.operand
            &&& after.hash <==> c == '#'
            &&& c == '[' ==> after.attribute == context.hash
            &&& c != '[' && c != ']' ==> after.attribute == context.attribute
            &&& !after.name
            &&& after.call <==> c == '!' && context.name
            &&& (c == '(' || c == '[' || c == '{') && (context.call || context.depth > 0)
                ==> after.depth == context.depth + 1
            &&& (c == '(' || c == '[' || c == '{') && !context.call && context.depth == 0
                ==> after.depth == 0
            &&& c == ')' || c == ']' || c == '}' ==> after.depth == (if context.depth > 0 {
                context.depth - 1
            } else {
                0
            })
            &&& c != '(' && c != '[' && c != '{' && c != ')' && c != ']' && c != '}'
                ==> after.depth == context.depth
        }),
        forall|plain: bool|
            ({
                let after = #[trigger] context.past_name(plain);
                &&& after.operand
                &&& !after.hash
                &&& after.attribute == context.attribute
                &&& after.name == plain
                &&& !after.call
                &&& after.depth == context.depth
            }),
{
}

/// A character is not blank, and does not begin a comment.
pub open spec fn solid(source: Seq<char>, i: int) -> bool {
    i < source.len() ==> !scan::is_space(source[i]) && source[i] != '/'
}

proof fn nothing_to_skip(source: Seq<char>, i: int)
    requires
        0 <= i <= source.len(),
        solid(source, i),
    ensures
        scan::blank_end(source, i) == Some(i),
        scan::skip_blank(source, i) == i,
{
}

/// Blanks do not matter.
pub proof fn blanks_are_skipped(source: Seq<char>, i: int, end: int, context: Context)
    requires
        0 <= i <= end <= source.len(),
        forall|k: int| i <= k < end ==> scan::is_space(#[trigger] source[k]),
        solid(source, end),
    ensures
        scan::blank_end(source, i) == Some(end),
        scan::wide_byte_from(source, i, context) == scan::wide_byte_from(source, end, context),
    decreases end - i,
{
    nothing_to_skip(source, end);
    if i < end {
        blanks_are_skipped(source, i + 1, end, context);
        assert(scan::is_space(source[i]));
    }
}

/// A comment up to the end of the line does not matter.
pub proof fn a_line_comment_is_skipped(source: Seq<char>, i: int, end: int, context: Context)
    requires
        0 <= i,
        i + 2 <= end < source.len(),
        source[i] == '/',
        source[i + 1] == '/',
        source[i + 2] != '!',
        source[i + 2] == '/' ==> i + 3 < source.len() && source[i + 3] == '/',
        forall|k: int| i + 2 <= k < end ==> #[trigger] source[k] != '\n',
        source[end] == '\n',
        solid(source, end + 1),
    ensures
        scan::wide_byte_from(source, i, context) == scan::wide_byte_from(source, end + 1, context),
{
    a_line_ends(source, i + 2, end);
    nothing_to_skip(source, end + 1);
}

/// Nothing is found in a comment that the source ends with.
pub proof fn a_last_comment_is_skipped(source: Seq<char>, i: int, context: Context)
    requires
        0 <= i,
        i + 2 <= source.len(),
        source[i] == '/',
        source[i + 1] == '/',
        i + 2 < source.len() ==> source[i + 2] != '!',
        i + 2 < source.len() && source[i + 2] == '/' ==> i + 3 < source.len() && source[i + 3]
            == '/',
        forall|k: int| i + 2 <= k < source.len() ==> #[trigger] source[k] != '\n',
    ensures
        !scan::wide_byte_from(source, i, context),
{
    a_line_ends(source, i + 2, source.len() as int);
    assert(!scan::wide_byte_from(source, source.len() as int, context));
}

/// A line ends with the first character that ends one.
pub proof fn a_line_ends(source: Seq<char>, i: int, end: int)
    requires
        0 <= i <= end <= source.len(),
        forall|k: int| i <= k < end ==> #[trigger] source[k] != '\n',
        end < source.len() ==> source[end] == '\n',
    ensures
        scan::line_end(source, i) == end,
    decreases end - i,
{
    if i < end {
        assert(source[i] != '\n');
        a_line_ends(source, i + 1, end);
    }
}

/// A documentation comment up to the end of the line does not matter.
pub proof fn a_documentation_line_is_skipped(
    source: Seq<char>,
    i: int,
    end: int,
    context: Context,
)
    requires
        0 <= i,
        i + 3 <= end < source.len(),
        source[i] == '/',
        source[i + 1] == '/',
        source[i + 2] == '/' && source[i + 3] != '/' || source[i + 2] == '!',
        forall|k: int| i + 2 <= k < end ==> #[trigger] source[k] != '\n',
        source[end] == '\n',
    ensures
        scan::wide_byte_from(source, i, context) == scan::wide_byte_from(source, end, context),
{
    a_line_ends(source, i + 2, end);
    assert(scan::blank_end(source, i) == Some(i));
}

/// One that the source ends with is no comment.
pub proof fn a_last_documentation_line_is_code(source: Seq<char>, i: int, context: Context)
    requires
        0 <= i,
        i + 2 < source.len(),
        source[i] == '/',
        source[i + 1] == '/',
        source[i + 2] == '!' || source[i + 2] == '/' && (i + 3 == source.len() || source[i + 3]
            != '/'),
        forall|k: int| i + 2 <= k < source.len() ==> #[trigger] source[k] != '\n',
    ensures
        scan::wide_byte_from(source, i, context) == scan::wide_byte_from(
            source,
            i + 1,
            context.past('/'),
        ),
{
    a_line_ends(source, i + 2, source.len() as int);
    assert(scan::blank_end(source, i) == Some(i));
}

/// A comment that is closed does not matter.
pub proof fn a_block_comment_is_skipped(source: Seq<char>, i: int, end: int, context: Context)
    requires
        0 <= i,
        i + 2 <= end,
        end + 1 < source.len(),
        source[i] == '/',
        source[i + 1] == '*',
        source[i + 2] != '!',
        source[i + 2] == '*' ==> source[i + 3] == '*',
        nothing_nested(source, i + 2, end),
        source[end] == '*',
        source[end + 1] == '/',
        solid(source, end + 2),
    ensures
        scan::wide_byte_from(source, i, context) == scan::wide_byte_from(source, end + 2, context),
{
    a_comment_ends(source, i + 2, end, 1);
    nothing_to_skip(source, end + 2);
}

/// One that is not closed is no comment.
pub proof fn an_open_comment_is_code(source: Seq<char>, i: int, context: Context)
    requires
        0 <= i,
        i + 1 < source.len(),
        source[i] == '/',
        source[i + 1] == '*',
        forall|k: int|
            i + 2 <= k && k + 1 < source.len() ==> !(#[trigger] source[k] == '*' && source[k + 1]
                == '/'),
    ensures
        scan::wide_byte_from(source, i, context) == scan::wide_byte_from(
            source,
            i + 1,
            context.past('/'),
        ),
{
    nothing_closes(source, i + 2, 1);
}

proof fn nothing_closes(source: Seq<char>, i: int, depth: nat)
    requires
        0 <= i,
        forall|k: int|
            i <= k && k + 1 < source.len() ==> !(#[trigger] source[k] == '*' && source[k + 1]
                == '/'),
    ensures
        scan::block_end(source, i, depth) is None,
    decreases source.len() - i + 1,
{
    if i < source.len() {
        assert(i + 1 < source.len() ==> !(source[i] == '*' && source[i + 1] == '/'));
        nothing_closes(source, i + 1, depth);
        nothing_closes(source, i + 2, depth + 1);
    }
}

/// A documentation comment that is closed does not matter where nothing ends that could be
/// divided, and anywhere in a macro.
pub proof fn a_documentation_block_is_skipped(
    source: Seq<char>,
    i: int,
    end: int,
    context: Context,
)
    requires
        0 <= i,
        i + 2 <= end,
        end + 1 < source.len(),
        source[i] == '/',
        source[i + 1] == '*',
        source[i + 2] == '!' || source[i + 2] == '*' && source[i + 3] != '*',
        nothing_nested(source, i + 2, end),
        source[end] == '*',
        source[end + 1] == '/',
        !context.operand || context.depth > 0,
    ensures
        scan::wide_byte_from(source, i, context) == scan::wide_byte_from(source, end + 2, context),
{
    a_comment_ends(source, i + 2, end, 1);
    assert(scan::blank_end(source, i) == Some(i));
}

/// Elsewhere it divides what comes before it.
pub proof fn a_documentation_block_divides(source: Seq<char>, i: int, context: Context)
    requires
        0 <= i,
        i + 3 < source.len(),
        source[i] == '/',
        source[i + 1] == '*',
        source[i + 2] == '!' || source[i + 2] == '*' && source[i + 3] != '*',
        context.operand,
        context.depth == 0,
    ensures
        scan::wide_byte_from(source, i, context) == scan::wide_byte_from(
            source,
            i + 1,
            context.past('/'),
        ),
{
    assert(scan::blank_end(source, i) == Some(i));
}

/// Between the positions, no comment is opened and none is closed.
pub open spec fn nothing_nested(source: Seq<char>, i: int, end: int) -> bool {
    forall|k: int|
        i <= k < end ==> !(#[trigger] source[k] == '*' && source[k + 1] == '/') && !(source[k]
            == '/' && source[k + 1] == '*')
}

/// A comment ends where it is closed, and one that is opened within it has to be closed first.
pub proof fn a_comment_ends(source: Seq<char>, i: int, end: int, depth: nat)
    requires
        0 <= i <= end,
        end + 1 < source.len(),
        depth >= 1,
        nothing_nested(source, i, end),
        source[end] == '*' && source[end + 1] == '/' || source[end] == '/' && source[end + 1]
            == '*',
    ensures
        source[end] == '*' && depth == 1 ==> scan::block_end(source, i, depth) == Some(end + 2),
        source[end] == '*' && depth > 1 ==> scan::block_end(source, i, depth) == scan::block_end(
            source,
            end + 2,
            (depth - 1) as nat,
        ),
        source[end] == '/' ==> scan::block_end(source, i, depth) == scan::block_end(
            source,
            end + 2,
            depth + 1,
        ),
    decreases end - i,
{
    if i < end {
        assert(!(source[i] == '*' && source[i + 1] == '/') && !(source[i] == '/' && source[i + 1]
            == '*'));
        a_comment_ends(source, i + 1, end, depth);
    }
}

/// A string does not matter, up to the first quote that is not escaped.
pub proof fn a_string_is_skipped(source: Seq<char>, i: int, end: int, context: Context)
    requires
        0 <= i < end < source.len(),
        source[i] == '"',
        scan::string_end(source, i + 1) == Some(end + 1),
    ensures
        scan::wide_byte_from(source, i, context) == scan::wide_byte_from(
            source,
            end + 1,
            context.past_name(false),
        ),
{
    nothing_to_skip(source, i);
}

/// A string ends with the first quote, when nothing is escaped before it. What follows a backslash
/// ends no string.
pub proof fn a_string_ends(source: Seq<char>, i: int, end: int)
    requires
        0 <= i <= end < source.len(),
        forall|k: int| i <= k < end ==> #[trigger] source[k] != '"' && source[k] != '\\',
    ensures
        source[end] == '"' ==> scan::string_end(source, i) == Some(end + 1),
        source[end] == '\\' ==> scan::string_end(source, i) == scan::string_end(source, end + 2),
        end + 1 == source.len() && source[end] != '"' ==> scan::string_end(source, i) is None,
    decreases end - i,
{
    if i < end {
        assert(source[i] != '"' && source[i] != '\\');
        a_string_ends(source, i + 1, end);
    } else if end + 1 == source.len() {
        assert(scan::string_end(source, end + 1) is None);
        assert(scan::string_end(source, end + 2) is None);
    }
}

/// A character literal does not matter. One that is escaped goes up to the next quote.
pub proof fn a_character_is_skipped(source: Seq<char>, i: int, end: int, context: Context)
    requires
        0 <= i,
        i + 2 <= end < source.len(),
        source[i] == '\'',
        source[end] == '\'',
        source[i + 1] != '\\' ==> end == i + 2,
        source[i + 1] == '\\' ==> i + 3 <= end,
        forall|k: int| i + 3 <= k < end ==> #[trigger] source[k] != '\'',
    ensures
        scan::wide_byte_from(source, i, context) == scan::wide_byte_from(
            source,
            end + 1,
            context.past_name(false),
        ),
{
    nothing_to_skip(source, i);
    if source[i + 1] == '\\' {
        a_quote_is_next(source, i + 3, end);
    }
}

proof fn a_quote_is_next(source: Seq<char>, i: int, end: int)
    requires
        0 <= i <= end < source.len(),
        source[end] == '\'',
        forall|k: int| i <= k < end ==> #[trigger] source[k] != '\'',
    ensures
        scan::quote_end(source, i) == Some(end + 1),
    decreases end - i,
{
    if i < end {
        assert(source[i] != '\'');
        a_quote_is_next(source, i + 1, end);
    }
}

/// The source has the first characters of a byte literal of a character outside of ASCII.
pub open spec fn looks_wide(source: Seq<char>) -> bool {
    exists|j: int|
        0 <= j && j + 2 < source.len() && #[trigger] source[j] == 'b' && source[j + 1] == '\''
            && source[j + 2] > '\x7f'
}

proof fn looks_wide_somewhere(source: Seq<char>)
    ensures
        looks_wide(source) <==> exists|j: int| scan::wide_byte_at(source, j),
{
    if looks_wide(source) {
        let j = choose|j: int|
            0 <= j && j + 2 < source.len() && #[trigger] source[j] == 'b' && source[j + 1] == '\''
                && source[j + 2] > '\x7f';
        assert(scan::wide_byte_at(source, j));
    }
    if exists|j: int| scan::wide_byte_at(source, j) {
        let j = choose|j: int| scan::wide_byte_at(source, j);
        assert(source[j] == 'b');
    }
}

/// A quote that begins neither a character literal nor a lifetime leaves it open what is code, so
/// all that looks like a byte literal counts.
pub proof fn a_lone_quote_leaves_all_open(source: Seq<char>, i: int, context: Context)
    requires
        0 <= i < source.len(),
        source[i] == '\'',
        solid(source, i + 1),
        i + 1 < source.len() ==> source[i + 1] != '\\' && !scan::starts_name(source[i + 1]),
        i + 2 < source.len() ==> source[i + 2] != '\'',
    ensures
        scan::wide_byte_from(source, i, context) <==> looks_wide(source),
{
    nothing_to_skip(source, i);
    nothing_to_skip(source, i + 1);
    looks_wide_somewhere(source);
}

/// A raw string does not matter, up to the first quote with as many `#` after it as there are
/// before the first one.
pub proof fn a_raw_string_is_skipped(
    source: Seq<char>,
    i: int,
    n: nat,
    end: int,
    context: Context,
)
    requires
        0 <= i,
        i + 1 + n < end,
        end + n < source.len(),
        source[i] == 'r',
        forall|k: int| i + 1 <= k < i + 1 + n ==> #[trigger] source[k] == '#',
        source[i + 1 + n] == '"',
        forall|k: int| i + 2 + n <= k < end ==> #[trigger] source[k] != '"',
        source[end] == '"',
        forall|k: int| end + 1 <= k < end + 1 + n ==> #[trigger] source[k] == '#',
    ensures
        scan::wide_byte_from(source, i, context) == scan::wide_byte_from(
            source,
            end + 1 + n,
            context.past_name(false),
        ),
        i > 0 && source[i - 1] == 'b' ==> scan::wide_byte_from(source, i - 1, context)
            == scan::wide_byte_from(source, end + 1 + n, context.past_name(false)),
{
    nothing_to_skip(source, i);
    hashes_are_counted(source, i + 1, n);
    at_least_as_many(source, end + 1, n);
    a_raw_string_ends(source, i + 2 + n, n, end);
    if i > 0 && source[i - 1] == 'b' {
        nothing_to_skip(source, i - 1);
    }
}

/// As many `#` are counted as there are up to another character.
pub proof fn hashes_are_counted(source: Seq<char>, i: int, n: nat)
    requires
        0 <= i,
        i + n <= source.len(),
        forall|k: int| i <= k < i + n ==> #[trigger] source[k] == '#',
        i + n < source.len() ==> source[i + n] != '#',
    ensures
        scan::hashes(source, i) == n,
    decreases n,
{
    if n > 0 {
        assert(source[i] == '#');
        hashes_are_counted(source, i + 1, (n - 1) as nat);
    }
}

proof fn at_least_as_many(source: Seq<char>, i: int, n: nat)
    requires
        0 <= i,
        i + n <= source.len(),
        forall|k: int| i <= k < i + n ==> #[trigger] source[k] == '#',
    ensures
        scan::hashes(source, i) >= n,
    decreases n,
{
    if n > 0 {
        assert(source[i] == '#');
        at_least_as_many(source, i + 1, (n - 1) as nat);
    }
}

proof fn a_raw_string_ends(source: Seq<char>, i: int, n: nat, end: int)
    requires
        0 <= i <= end < source.len(),
        forall|k: int| i <= k < end ==> #[trigger] source[k] != '"',
        source[end] == '"',
        scan::hashes(source, end + 1) >= n,
    ensures
        scan::raw_close(source, i, n) == Some(end + 1 + n),
    decreases end - i,
{
    if i < end {
        assert(source[i] != '"');
        a_raw_string_ends(source, i + 1, n, end);
    }
}

/// A quote with fewer `#` after it ends no raw string.
pub proof fn a_quote_ends_no_raw_string(source: Seq<char>, i: int, n: nat)
    requires
        0 <= i < source.len(),
        scan::hashes(source, i + 1) < n,
    ensures
        scan::raw_close(source, i, n) == scan::raw_close(source, i + 1, n),
{
}

/// A character that a name can go on with.
pub open spec fn in_name(c: char) -> bool {
    scan::is_letter(c) || scan::is_digit(c) || c == '_'
}

/// A name ends before the first character that it cannot go on with.
pub proof fn a_name_ends(source: Seq<char>, i: int, end: int)
    requires
        0 <= i <= end <= source.len(),
        forall|k: int| i <= k < end ==> in_name(#[trigger] source[k]),
        end < source.len() ==> !in_name(source[end]),
    ensures
        scan::name_end(source, i) == end,
    decreases end - i,
{
    if i < end {
        assert(in_name(source[i]));
        a_name_ends(source, i + 1, end);
    }
}

/// A name is read as a whole, so no literal begins within it. A macro can be called by it unless
/// it is one of three words that a type may follow. What looks like a name can begin a raw string
/// or a byte literal instead.
pub proof fn a_name_is_skipped(source: Seq<char>, i: int, end: int, context: Context)
    requires
        0 <= i < end <= source.len(),
        scan::starts_name(source[i]),
        forall|k: int| i <= k < end ==> in_name(#[trigger] source[k]),
        end < source.len() ==> !in_name(source[end]),
        end < source.len() && (source[end] == '"' || source[end] == '#') ==> !(end == i + 1
            && source[i] == 'r') && !(end == i + 2 && source[i] == 'b' && source[i + 1] == 'r'),
        end + 1 < source.len() && source[end] == '\'' && source[end + 1] > '\x7f' ==> !(end == i + 1
            && source[i] == 'b'),
    ensures
        ({
            let word = source.subrange(i, end);
            let plain = word != "as"@ && word != "mut"@ && word != "const"@;
            scan::wide_byte_from(source, i, context) == scan::wide_byte_from(
                source,
                end,
                context.past_name(plain),
            )
        }),
{
    nothing_to_skip(source, i);
    a_name_ends(source, i, end);
    reveal_strlit("as");
    reveal_strlit("mut");
    reveal_strlit("const");
    let word = source.subrange(i, end);
    assert(word.len() == end - i);
    if i + 1 < end {
        assert(in_name(source[i + 1]));
    }
    if i + 2 < end {
        assert(in_name(source[i + 2]));
    }
    assert(scan::raw_end(source, i + 1) is None || source[i] != 'r');
    assert(scan::raw_end(source, i + 2) is None || !scan::is_at(source, i + 1, 'r') || source[i]
        != 'b');
}

/// An `r` before a `#` that no string follows is a name of its own.
pub proof fn a_raw_name_is_no_string(source: Seq<char>, i: int, context: Context)
    requires
        0 <= i,
        i + 2 < source.len(),
        source[i] == 'r',
        source[i + 1] == '#',
        source[i + 2] != '#',
        source[i + 2] != '"',
    ensures
        scan::wide_byte_from(source, i, context) == scan::wide_byte_from(
            source,
            i + 1,
            context.past_name(true),
        ),
{
    nothing_to_skip(source, i);
    hashes_are_counted(source, i + 1, 1);
    a_name_ends(source, i, i + 1);
}

/// An `r` before a string that is never closed is one, too.
pub proof fn an_open_raw_string_is_none(source: Seq<char>, i: int, context: Context)
    requires
        0 <= i,
        i + 1 < source.len(),
        source[i] == 'r',
        source[i + 1] == '"',
        forall|k: int| i + 2 <= k < source.len() ==> #[trigger] source[k] != '"',
    ensures
        scan::wide_byte_from(source, i, context) == scan::wide_byte_from(
            source,
            i + 1,
            context.past_name(true),
        ),
{
    nothing_to_skip(source, i);
    hashes_are_counted(source, i + 1, 0);
    no_raw_string_ends(source, i + 2, 0);
    a_name_ends(source, i, i + 1);
}

proof fn no_raw_string_ends(source: Seq<char>, i: int, n: nat)
    requires
        0 <= i,
        forall|k: int| i <= k < source.len() ==> #[trigger] source[k] != '"',
    ensures
        scan::raw_close(source, i, n) is None,
    decreases source.len() - i,
{
    if i < source.len() {
        assert(source[i] != '"');
        no_raw_string_ends(source, i + 1, n);
    }
}

/// A lifetime is read as a whole, also when there are blanks after its quote.
pub proof fn a_lifetime_is_skipped(
    source: Seq<char>,
    i: int,
    name: int,
    end: int,
    context: Context,
)
    requires
        0 <= i < name < end <= source.len(),
        source[i] == '\'',
        forall|k: int| i + 1 <= k < name ==> scan::is_space(#[trigger] source[k]),
        scan::starts_name(source[name]),
        forall|k: int| name <= k < end ==> in_name(#[trigger] source[k]),
        end < source.len() ==> !in_name(source[end]),
        i + 2 < source.len() ==> source[i + 2] != '\'',
    ensures
        scan::wide_byte_from(source, i, context) == scan::wide_byte_from(
            source,
            end,
            context.past_name(false),
        ),
{
    nothing_to_skip(source, i);
    blanks_are_skipped(source, i + 1, name, context);
    a_name_ends(source, name, end);
    if i + 1 < name {
        assert(scan::is_space(source[i + 1]));
    }
}

/// From the first position to the second there are only digits and `_`.
pub open spec fn all_digits(source: Seq<char>, i: int, end: int) -> bool {
    forall|k: int| i <= k < end ==> scan::is_digit(#[trigger] source[k]) || source[k] == '_'
}

/// A whole number is read as a whole, with its suffix if it has one.
pub proof fn a_number_is_skipped(
    source: Seq<char>,
    i: int,
    end: int,
    suffix: Seq<char>,
    context: Context,
)
    requires
        0 <= i < end,
        end + suffix.len() <= source.len(),
        scan::is_digit(source[i]),
        all_digits(source, i, end),
        suffix.len() == 0 ==> end < source.len() ==> !in_name(source[end]) && source[end] != '.',
        suffix.len() > 0 ==> suffix == "isize"@ || suffix == "usize"@ || suffix == "i8"@ || suffix
            == "u8"@ || suffix == "i16"@ || suffix == "u16"@ || suffix == "i32"@ || suffix
            == "u32"@ || suffix == "i64"@ || suffix == "u64"@,
        source.subrange(end, end + suffix.len()) == suffix,
    ensures
        scan::wide_byte_from(source, i, context) == scan::wide_byte_from(
            source,
            end + suffix.len(),
            context.past_name(false),
        ),
{
    nothing_to_skip(source, i);
    reveal_suffixes();
    assert forall|k: int| 0 <= k < suffix.len() implies #[trigger] suffix[k] == source[end + k] by {
        assert(source.subrange(end, end + suffix.len())[k] == source[end + k]);
    }
    if suffix.len() > 0 {
        assert(suffix[0] == source[end]);
        assert(suffix[1] == source[end + 1]);
        one_suffix(source, end, suffix);
    } else {
        no_suffix(source, end);
    }
    digits_are_read(source, i + 1, end, false);
    assert(scan::mantissa(source, end, false) == Some(
        scan::Mantissa { end, point: false, exponent: false },
    ));
    no_float_suffix(source, end);
    assert(scan::float_end(source, i + 1) is None);
    digits_end_there(source, i + 1, end);
    assert(scan::digits_end(source, end, 10, false) == Some(end));
    no_base(source, i, end);
    assert(scan::integer_end(source, i) == Some(end + suffix.len()));
}

/// The text is at the position: that of a suffix of a float, or nothing before what ends a number.
pub open spec fn float_ends(source: Seq<char>, end: int, suffix: Seq<char>) -> bool {
    &&& 0 <= end
    &&& end + suffix.len() <= source.len()
    &&& source.subrange(end, end + suffix.len()) == suffix
    &&& suffix == "f32"@ || suffix == "f64"@ || suffix.len() == 0 && (end < source.len()
        ==> !in_name(source[end]))
}

proof fn float_suffix_is_read(source: Seq<char>, end: int, suffix: Seq<char>)
    requires
        float_ends(source, end, suffix),
    ensures
        suffix.len() == 0 || suffix.len() == 3 && source[end] == 'f',
        scan::float_suffix(source, end) <==> suffix.len() == 3,
{
    reveal_suffixes();
    if suffix.len() == 0 {
        no_suffix(source, end);
    } else {
        assert(source.subrange(end, end + suffix.len())[0] == source[end]);
    }
}

/// A number with a point is read as a whole, with its suffix if it has one, unless the point
/// belongs to what follows: to a name, or to another point.
pub proof fn a_number_with_a_point_is_skipped(
    source: Seq<char>,
    i: int,
    point: int,
    end: int,
    suffix: Seq<char>,
    context: Context,
)
    requires
        0 <= i < point < end,
        float_ends(source, end, suffix),
        scan::is_digit(source[i]),
        all_digits(source, i, point),
        source[point] == '.',
        all_digits(source, point + 1, end),
        end == point + 1 && end < source.len() ==> source[end] != '.' && suffix.len() == 0,
    ensures
        scan::wide_byte_from(source, i, context) == scan::wide_byte_from(
            source,
            end + suffix.len(),
            context.past_name(false),
        ),
{
    nothing_to_skip(source, i);
    float_suffix_is_read(source, end, suffix);
    digits_are_read(source, i + 1, point, false);
    digits_are_read(source, point + 1, end, true);
    assert(scan::mantissa(source, end, true) == Some(
        scan::Mantissa { end, point: true, exponent: false },
    ));
    if point + 1 < end {
        assert(scan::is_digit(source[point + 1]) || source[point + 1] == '_');
    }
    assert(scan::mantissa(source, point, false) == scan::mantissa(source, point + 1, true));
}

/// The point after a number belongs to a name or another point that follows it.
pub proof fn a_number_ends_before_a_range(source: Seq<char>, i: int, point: int, context: Context)
    requires
        0 <= i < point,
        point + 1 < source.len(),
        scan::is_digit(source[i]),
        all_digits(source, i, point),
        source[point] == '.',
        source[point + 1] == '.' || scan::is_letter(source[point + 1]),
    ensures
        scan::wide_byte_from(source, i, context) == scan::wide_byte_from(
            source,
            point,
            context.past_name(false),
        ),
{
    nothing_to_skip(source, i);
    digits_are_read(source, i + 1, point, false);
    assert(scan::mantissa(source, point, false) is None);
    no_suffix(source, point);
    digits_end_there(source, i + 1, point);
    assert(scan::digits_end(source, point, 10, false) == Some(point));
    no_base(source, i, point);
}

/// A number that is marked as a float is read as a whole, with or without a point.
pub proof fn a_marked_float_is_skipped(
    source: Seq<char>,
    i: int,
    end: int,
    suffix: Seq<char>,
    context: Context,
)
    requires
        0 <= i < end,
        end + 3 <= source.len(),
        scan::is_digit(source[i]),
        all_digits(source, i, end),
        suffix == "f32"@ || suffix == "f64"@,
        source.subrange(end, end + 3) == suffix,
    ensures
        scan::wide_byte_from(source, i, context) == scan::wide_byte_from(
            source,
            end + 3,
            context.past_name(false),
        ),
{
    nothing_to_skip(source, i);
    reveal_suffixes();
    assert(source.subrange(end, end + 3)[0] == source[end]);
    digits_are_read(source, i + 1, end, false);
    assert(scan::mantissa(source, end, false) == Some(
        scan::Mantissa { end, point: false, exponent: false },
    ));
    assert(scan::float_suffix(source, end));
}

/// A number with an exponent is read as a whole, with or without a point, and with its suffix if it
/// has one.
pub proof fn an_exponent_is_skipped(
    source: Seq<char>,
    i: int,
    point: int,
    mark: int,
    digits: int,
    end: int,
    suffix: Seq<char>,
    context: Context,
)
    requires
        0 <= i < point <= mark < digits < end,
        float_ends(source, end, suffix),
        scan::is_digit(source[i]),
        all_digits(source, i, point),
        point < mark ==> source[point] == '.' && point + 1 < mark && all_digits(
            source,
            point + 1,
            mark,
        ),
        source[mark] == 'e' || source[mark] == 'E',
        digits == mark + 1 || digits == mark + 2 && (source[mark + 1] == '+' || source[mark + 1]
            == '-'),
        scan::is_digit(source[digits]),
        all_digits(source, digits, end),
    ensures
        scan::wide_byte_from(source, i, context) == scan::wide_byte_from(
            source,
            end + suffix.len(),
            context.past_name(false),
        ),
{
    nothing_to_skip(source, i);
    float_suffix_is_read(source, end, suffix);
    digits_are_read(source, i + 1, point, false);
    if point < mark {
        assert(scan::is_digit(source[point + 1]) || source[point + 1] == '_');
        assert(scan::mantissa(source, point, false) == scan::mantissa(source, point + 1, true));
        digits_are_read(source, point + 1, mark, true);
    }
    assert(scan::mantissa(source, mark, point < mark) == Some(
        scan::Mantissa { end: mark + 1, point: point < mark, exponent: true },
    ));
    exponent_ends(source, digits + 1, end);
    assert(scan::exponent_end(source, digits, false) == Some(end));
    assert(scan::exponent_end(source, mark + 1, false) == Some(end));
}

/// An exponent without a digit leaves it open what is code, when there is no point before it.
pub proof fn an_exponent_without_digits_leaves_all_open(
    source: Seq<char>,
    i: int,
    mark: int,
    end: int,
    context: Context,
)
    requires
        0 <= i < mark < end <= source.len(),
        scan::is_digit(source[i]),
        all_digits(source, i, mark),
        source[mark] == 'e' || source[mark] == 'E',
        forall|k: int|
            mark < k < end ==> #[trigger] source[k] == '+' || source[k] == '-' || source[k] == '_',
        end < source.len() ==> source[end] != '+' && source[end] != '-' && source[end] != '_'
            && !scan::is_digit(source[end]),
    ensures
        scan::wide_byte_from(source, i, context) <==> looks_wide(source),
{
    nothing_to_skip(source, i);
    looks_wide_somewhere(source);
    digits_are_read(source, i + 1, mark, false);
    assert(scan::mantissa(source, mark, false) == Some(
        scan::Mantissa { end: mark + 1, point: false, exponent: true },
    ));
    no_exponent_ends(source, mark + 1, end);
    assert(scan::float_end(source, i + 1) is None);
    digits_end_there(source, i + 1, mark);
    assert(scan::digits_end(source, mark, 10, false) is None);
    no_base(source, i, mark);
}

proof fn no_exponent_ends(source: Seq<char>, i: int, end: int)
    requires
        0 <= i <= end <= source.len(),
        forall|k: int|
            i <= k < end ==> #[trigger] source[k] == '+' || source[k] == '-' || source[k] == '_',
        end < source.len() ==> source[end] != '+' && source[end] != '-' && source[end] != '_'
            && !scan::is_digit(source[end]),
    ensures
        scan::exponent_end(source, i, false) is None,
    decreases end - i,
{
    if i < end {
        assert(source[i] == '+' || source[i] == '-' || source[i] == '_');
        no_exponent_ends(source, i + 1, end);
    }
}

/// The number at the position is written to the base.
pub open spec fn has_base(source: Seq<char>, i: int, base: int) -> bool {
    &&& 0 <= i
    &&& i + 1 < source.len()
    &&& source[i] == '0'
    &&& source[i + 1] == 'x' && base == 16 || source[i + 1] == 'o' && base == 8 || source[i + 1]
        == 'b' && base == 2
}

/// The character is a digit to the base.
pub open spec fn is_digit_to(c: char, base: int) -> bool {
    ||| '0' <= c <= '9' && (c as int - '0' as int) < base
    ||| base == 16 && ('a' <= c <= 'f' || 'A' <= c <= 'F')
}

/// A number to another base is read as a whole, with its suffix if it has one.
pub proof fn a_number_to_a_base_is_skipped(
    source: Seq<char>,
    i: int,
    base: int,
    digit: int,
    end: int,
    suffix: Seq<char>,
    context: Context,
)
    requires
        has_base(source, i, base),
        i + 2 <= digit < end,
        end + suffix.len() <= source.len(),
        is_digit_to(source[digit], base),
        forall|k: int|
            i + 2 <= k < end ==> is_digit_to(#[trigger] source[k], base) || source[k] == '_',
        suffix.len() == 0 ==> end < source.len() ==> !in_name(source[end]),
        suffix.len() > 0 ==> suffix == "isize"@ || suffix == "usize"@ || suffix == "i8"@ || suffix
            == "u8"@ || suffix == "i16"@ || suffix == "u16"@ || suffix == "i32"@ || suffix
            == "u32"@ || suffix == "i64"@ || suffix == "u64"@,
        source.subrange(end, end + suffix.len()) == suffix,
    ensures
        scan::wide_byte_from(source, i, context) == scan::wide_byte_from(
            source,
            end + suffix.len(),
            context.past_name(false),
        ),
{
    nothing_to_skip(source, i);
    base_is_read(source, i, base);
    reveal_suffixes();
    if suffix.len() > 0 {
        assert(source.subrange(end, end + suffix.len())[0] == source[end]);
        one_suffix(source, end, suffix);
    } else {
        no_suffix(source, end);
    }
    based_digits_end(source, digit + 1, base, false, end);
    assert(scan::digits_end(source, end, base, false) == Some(end));
    based_digits_end(source, i + 2, base, true, digit);
    assert(scan::digits_end(source, digit, base, true) == Some(end));
    assert(scan::digits_end(source, digit, base, false) == Some(end));
}

/// A number to another base without any digit, or with one that is too great, leaves it open what
/// is code.
pub proof fn a_wrong_number_to_a_base_leaves_all_open(
    source: Seq<char>,
    i: int,
    base: int,
    end: int,
    context: Context,
)
    requires
        has_base(source, i, base),
        i + 2 <= end <= source.len(),
        forall|k: int|
            i + 2 <= k < end ==> is_digit_to(#[trigger] source[k], base) || source[k] == '_',
        end < source.len() && is_digit_to(source[end], 16) && !is_digit_to(source[end], base) || (
        end < source.len() ==> !is_digit_to(source[end], 16) && source[end] != '_') && forall|
            k: int,
        |
            i + 2 <= k < end ==> #[trigger] source[k] == '_',
    ensures
        scan::wide_byte_from(source, i, context) <==> looks_wide(source),
{
    nothing_to_skip(source, i);
    looks_wide_somewhere(source);
    base_is_read(source, i, base);
    if forall|k: int| i + 2 <= k < end ==> #[trigger] source[k] == '_' {
        based_digits_end(source, i + 2, base, true, end);
        assert(scan::digits_end(source, end, base, true) is None);
    } else {
        let k = choose|k: int| i + 2 <= k < end && #[trigger] source[k] != '_';
        based_digits_end(source, i + 2, base, true, end);
        assert(scan::digits_end(source, end, base, true) is None);
        assert(scan::digits_end(source, end, base, false) is None);
    }
}

proof fn base_is_read(source: Seq<char>, i: int, base: int)
    requires
        has_base(source, i, base),
    ensures
        scan::float_end(source, i + 1) is None,
        base == 16 <==> scan::reads(source, i, "0x"@),
        base == 8 <==> scan::reads(source, i, "0o"@),
        base == 2 <==> scan::reads(source, i, "0b"@),
{
    reveal_strlit("0x");
    reveal_strlit("0o");
    reveal_strlit("0b");
    let two = source.subrange(i, i + 2);
    assert(two[0] == source[i] && two[1] == source[i + 1]);
    assert(source[i + 1] == 'x' ==> two =~= "0x"@);
    assert(source[i + 1] == 'o' ==> two =~= "0o"@);
    assert(source[i + 1] == 'b' ==> two =~= "0b"@);
    assert("0x"@[1] == 'x' && "0o"@[1] == 'o' && "0b"@[1] == 'b');
    assert(scan::mantissa(source, i + 1, false) == Some(
        scan::Mantissa { end: i + 1, point: false, exponent: false },
    ));
    no_float_suffix(source, i + 1);
}

/// A digit that is too great for the base leaves it open what is code.
pub proof fn a_wrong_digit_leaves_all_open(source: Seq<char>, i: int, end: int, context: Context)
    requires
        0 <= i < end < source.len(),
        scan::is_digit(source[i]),
        all_digits(source, i, end),
        'a' <= source[end] <= 'd' || 'A' <= source[end] <= 'D' || source[end] == 'F',
        source[end] == 'b' ==> end > i + 1 || source[i] != '0',
    ensures
        scan::wide_byte_from(source, i, context) <==> looks_wide(source),
{
    nothing_to_skip(source, i);
    looks_wide_somewhere(source);
    digits_are_read(source, i + 1, end, false);
    assert(scan::mantissa(source, end, false) == Some(
        scan::Mantissa { end, point: false, exponent: false },
    ));
    no_float_suffix(source, end);
    assert(scan::float_end(source, i + 1) is None);
    digits_end_there(source, i + 1, end);
    assert(scan::digits_end(source, end, 10, false) is None);
    no_base(source, i, end);
}

proof fn reveal_suffixes()
    ensures
        "f32"@ == seq!['f', '3', '2'],
        "f64"@ == seq!['f', '6', '4'],
        "isize"@ == seq!['i', 's', 'i', 'z', 'e'],
        "usize"@ == seq!['u', 's', 'i', 'z', 'e'],
        "i16"@ == seq!['i', '1', '6'],
        "i32"@ == seq!['i', '3', '2'],
        "i64"@ == seq!['i', '6', '4'],
        "u16"@ == seq!['u', '1', '6'],
        "u32"@ == seq!['u', '3', '2'],
        "u64"@ == seq!['u', '6', '4'],
        "i8"@ == seq!['i', '8'],
        "u8"@ == seq!['u', '8'],
{
    reveal_strlit("f32");
    reveal_strlit("f64");
    reveal_strlit("isize");
    reveal_strlit("usize");
    reveal_strlit("i16");
    reveal_strlit("i32");
    reveal_strlit("i64");
    reveal_strlit("u16");
    reveal_strlit("u32");
    reveal_strlit("u64");
    reveal_strlit("i8");
    reveal_strlit("u8");
}

proof fn no_suffix(source: Seq<char>, end: int)
    requires
        0 <= end <= source.len(),
        end < source.len() ==> !in_name(source[end]),
    ensures
        !scan::float_suffix(source, end),
        scan::integer_suffix(source, end) == 0,
{
    reveal_suffixes();
    assert forall|word: Seq<char>| word.len() > 0 && in_name(word[0]) implies !#[trigger] scan::reads(
        source,
        end,
        word,
    ) by {
        if scan::reads(source, end, word) {
            assert(source.subrange(end, end + word.len())[0] == source[end]);
        }
    }
}

proof fn no_float_suffix(source: Seq<char>, end: int)
    requires
        0 <= end <= source.len(),
        end < source.len() ==> source[end] != 'f',
    ensures
        !scan::float_suffix(source, end),
{
    reveal_suffixes();
    assert forall|word: Seq<char>| word.len() > 0 && word[0] == 'f' implies !#[trigger] scan::reads(
        source,
        end,
        word,
    ) by {
        if scan::reads(source, end, word) {
            assert(source.subrange(end, end + word.len())[0] == source[end]);
        }
    }
}

proof fn one_suffix(source: Seq<char>, end: int, suffix: Seq<char>)
    requires
        0 <= end,
        suffix.len() > 0,
        end + suffix.len() <= source.len(),
        source.subrange(end, end + suffix.len()) == suffix,
        suffix == "isize"@ || suffix == "usize"@ || suffix == "i8"@ || suffix == "u8"@ || suffix
            == "i16"@ || suffix == "u16"@ || suffix == "i32"@ || suffix == "u32"@ || suffix
            == "i64"@ || suffix == "u64"@,
    ensures
        scan::integer_suffix(source, end) == suffix.len(),
{
    reveal_suffixes();
    assert(suffix[1] == source[end + 1]) by {
        assert(source.subrange(end, end + suffix.len())[1] == source[end + 1]);
    }
    assert forall|word: Seq<char>| word.len() > 1 && word[1] != suffix[1] implies !#[trigger] scan::reads(
        source,
        end,
        word,
    ) by {
        if scan::reads(source, end, word) {
            assert(source.subrange(end, end + word.len())[1] == source[end + 1]);
        }
    }
    assert(scan::reads(source, end, suffix));
}

proof fn no_base(source: Seq<char>, i: int, end: int)
    requires
        0 <= i < end <= source.len(),
        all_digits(source, i, end),
        end == i + 1 && end < source.len() && source[i] == '0' ==> source[end] != 'x' && source[end]
            != 'o' && source[end] != 'b',
    ensures
        !scan::reads(source, i, "0x"@),
        !scan::reads(source, i, "0o"@),
        !scan::reads(source, i, "0b"@),
{
    reveal_strlit("0x");
    reveal_strlit("0o");
    reveal_strlit("0b");
    if i + 2 <= source.len() {
        let two = source.subrange(i, i + 2);
        assert(two[0] == source[i]);
        assert(two[1] == source[i + 1]);
        if i + 1 < end {
            assert(scan::is_digit(source[i + 1]) || source[i + 1] == '_');
        }
        assert("0x"@[1] == 'x' && "0o"@[1] == 'o' && "0b"@[1] == 'b');
        assert("0x"@[0] == '0' && "0o"@[0] == '0' && "0b"@[0] == '0');
    }
}

proof fn digits_are_read(source: Seq<char>, i: int, end: int, point: bool)
    requires
        0 <= i <= end <= source.len(),
        all_digits(source, i, end),
    ensures
        scan::mantissa(source, i, point) == scan::mantissa(source, end, point),
    decreases end - i,
{
    if i < end {
        assert(scan::is_digit(source[i]) || source[i] == '_');
        digits_are_read(source, i + 1, end, point);
    }
}

proof fn exponent_ends(source: Seq<char>, i: int, end: int)
    requires
        0 <= i <= end <= source.len(),
        all_digits(source, i, end),
        end < source.len() ==> !scan::is_digit(source[end]) && source[end] != '_',
    ensures
        scan::exponent_end(source, i, true) == Some(end),
    decreases end - i,
{
    if i < end {
        assert(scan::is_digit(source[i]) || source[i] == '_');
        exponent_ends(source, i + 1, end);
    }
}

proof fn digits_end_there(source: Seq<char>, i: int, end: int)
    requires
        0 <= i <= end <= source.len(),
        all_digits(source, i, end),
    ensures
        scan::digits_end(source, i, 10, false) == scan::digits_end(source, end, 10, false),
    decreases end - i,
{
    if i < end {
        assert(scan::is_digit(source[i]) || source[i] == '_');
        digits_end_there(source, i + 1, end);
    }
}

proof fn based_digits_end(source: Seq<char>, i: int, base: int, empty: bool, end: int)
    requires
        0 <= i <= end <= source.len(),
        base == 16 || base == 8 || base == 2,
        forall|k: int| i <= k < end ==> is_digit_to(#[trigger] source[k], base) || source[k] == '_',
    ensures
        ({
            let blank = empty && forall|k: int| i <= k < end ==> #[trigger] source[k] == '_';
            scan::digits_end(source, i, base, empty) == scan::digits_end(source, end, base, blank)
        }),
    decreases end - i,
{
    if i < end {
        assert(is_digit_to(source[i], base) || source[i] == '_');
        if source[i] == '_' {
            based_digits_end(source, i + 1, base, empty, end);
        } else {
            based_digits_end(source, i + 1, base, false, end);
        }
    }
}

/// Any other character is read alone.
pub proof fn a_character_of_code_is_read_alone(source: Seq<char>, i: int, context: Context)
    requires
        0 <= i < source.len(),
        source[i] != '\'',
        source[i] != '"',
        !in_name(source[i]),
        !scan::is_space(source[i]),
        source[i] == '/' ==> i + 1 == source.len() || source[i + 1] != '/' && source[i + 1] != '*',
    ensures
        scan::wide_byte_from(source, i, context) == scan::wide_byte_from(
            source,
            i + 1,
            context.past(source[i]),
        ),
{
    assert(scan::blank_end(source, i) == Some(i));
}

/// A string that is never closed leaves it open what is code, too.
pub proof fn an_open_string_leaves_all_open(source: Seq<char>, i: int, context: Context)
    requires
        0 <= i < source.len(),
        source[i] == '"',
        scan::string_end(source, i + 1) is None,
    ensures
        scan::wide_byte_from(source, i, context) <==> looks_wide(source),
{
    nothing_to_skip(source, i);
    looks_wide_somewhere(source);
}

} // verus!
